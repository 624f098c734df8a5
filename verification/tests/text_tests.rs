use dromon::text::{
    chars_equal, from_chars, is_whitespace, parse_unsigned, slice_to_vec, split, split_str,
    split_whitespace, splitn, strip_prefix, to_chars, to_decimal, trim,
};

fn cs(s: &str) -> Vec<char> {
    s.chars().collect()
}

fn pieces(v: Vec<Vec<char>>) -> Vec<String> {
    v.into_iter().map(|p| p.into_iter().collect()).collect()
}

#[test]
fn chars_round_trip() {
    let c = to_chars("héllo ×3");
    assert_eq!(c, cs("héllo ×3"));
    assert_eq!(from_chars(&c), "héllo ×3");
}

#[test]
fn whitespace_follows_unicode() {
    assert!(is_whitespace(' '));
    assert!(is_whitespace('\t'));
    assert!(is_whitespace('\u{3000}'));
    assert!(!is_whitespace('a'));
    assert!(!is_whitespace('\u{1e}'));
}

#[test]
fn trim_both_ends() {
    assert_eq!(trim(&cs("  60.5 \n")), cs("60.5"));
    assert_eq!(trim(&cs("   ")), cs(""));
    assert_eq!(trim(&cs("a b")), cs("a b"));
}

#[test]
fn strip_prefix_only_at_start() {
    assert_eq!(strip_prefix(&cs("[FPS] 60"), &cs("[FPS] ")), Some(cs("60")));
    assert_eq!(strip_prefix(&cs("x[FPS] 60"), &cs("[FPS] ")), None);
    assert_eq!(strip_prefix(&cs("[FP"), &cs("[FPS] ")), None);
}

#[test]
fn split_on_char_keeps_empty_pieces() {
    assert_eq!(pieces(split(&cs("a;;b;"), ';')), vec!["a", "", "b", ""]);
    assert_eq!(pieces(split(&cs(""), ';')), vec![""]);
}

#[test]
fn splitn_keeps_rest_in_last_piece() {
    assert_eq!(pieces(splitn(&cs("1\u{1f}2\u{1f}3\u{1f}a\u{1f}b"), 4, '\u{1f}')), vec!["1", "2", "3", "a\u{1f}b"]);
    assert_eq!(pieces(splitn(&cs("1\u{1f}2"), 4, '\u{1f}')), vec!["1", "2"]);
    assert_eq!(pieces(splitn(&cs("abc"), 0, ';')), Vec::<String>::new());
}

#[test]
fn split_on_pattern() {
    assert_eq!(pieces(split_str(&cs("a::b::c"), &cs("::"))), vec!["a", "b", "c"]);
    assert_eq!(pieces(split_str(&cs("free name"), &cs("::"))), vec!["free name"]);
    assert_eq!(pieces(split_str(&cs("::x"), &cs("::"))), vec!["", "x"]);
}

#[test]
fn split_whitespace_drops_empty_words() {
    assert_eq!(pieces(split_whitespace(&cs("  mode=release   profiling=enabled "))), vec!["mode=release", "profiling=enabled"]);
    assert_eq!(pieces(split_whitespace(&cs("   "))), Vec::<String>::new());
}

#[test]
fn parse_unsigned_like_str_parse() {
    assert_eq!(parse_unsigned(&cs("42"), 255), Some(42));
    assert_eq!(parse_unsigned(&cs("+7"), 255), Some(7));
    assert_eq!(parse_unsigned(&cs("256"), 255), None);
    assert_eq!(parse_unsigned(&cs(""), 255), None);
    assert_eq!(parse_unsigned(&cs("+"), 255), None);
    assert_eq!(parse_unsigned(&cs("-1"), 255), None);
    assert_eq!(parse_unsigned(&cs("1a"), 255), None);
    assert_eq!(parse_unsigned(&cs("340282366920938463463374607431768211455"), u128::MAX), Some(u128::MAX));
}

#[test]
fn decimal_writing() {
    assert_eq!(to_decimal(0), cs("0"));
    assert_eq!(to_decimal(1234567), cs("1234567"));
    assert_eq!(to_decimal(u128::MAX), cs(&u128::MAX.to_string()));
}

#[test]
fn slices_and_equality() {
    assert_eq!(slice_to_vec(&cs("abcdef"), 1, 4), cs("bcd"));
    assert!(chars_equal(&cs("abc"), &cs("abc")));
    assert!(!chars_equal(&cs("abc"), &cs("abd")));
    assert!(!chars_equal(&cs("abc"), &cs("ab")));
}
