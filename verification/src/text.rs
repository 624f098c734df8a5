//! Character-level text handling shared by the message decoders and the monitor views:
//! conversions between strings and character vectors, trimming, splitting, decimal
//! numbers.
use vstd::prelude::*;

verus! {

/// Appends one character to a string.
#[verifier::external_body]
pub(crate) fn push_char(s: &mut String, c: char)
    ensures
        final(s)@ == old(s)@.push(c),
{
    s.push(c);
}

/// The characters of `s`, in order.
pub fn to_chars(s: &str) -> (r: Vec<char>)
    ensures
        r@ == s@,
{
    let mut r: Vec<char> = Vec::new();
    for c in it: s.chars()
        invariant
            r@ == it.seq().take(it.index() as int),
            it.seq() == s@,
    {
        r.push(c);
    }
    r
}

/// The string made of the characters `cs`.
pub fn from_chars(cs: &[char]) -> (r: String)
    ensures
        r@ == cs@,
{
    let mut r = String::new();
    let mut i: usize = 0;
    while i < cs.len()
        invariant
            i <= cs@.len(),
            r@ == cs@.take(i as int),
        decreases cs@.len() - i,
    {
        push_char(&mut r, cs[i]);
        i = i + 1;
        proof {
            assert(r@ =~= cs@.take(i as int));
        }
    }
    proof {
        assert(cs@.take(i as int) =~= cs@);
    }
    r
}


/// Unicode `White_Space` (the characters `char::is_whitespace` accepts).
pub open spec fn is_ws(c: char) -> bool {
    let u = c as u32;
    (0x9 <= u <= 0xd) || u == 0x20 || u == 0x85 || u == 0xa0 || u == 0x1680 || (0x2000 <= u
        <= 0x200a) || u == 0x2028 || u == 0x2029 || u == 0x202f || u == 0x205f || u == 0x3000
}

/// Whether `c` is Unicode white space.
pub fn is_whitespace(c: char) -> (r: bool)
    ensures
        r == is_ws(c),
{
    let u = c as u32;
    (0x9 <= u && u <= 0xd) || u == 0x20 || u == 0x85 || u == 0xa0 || u == 0x1680 || (0x2000 <= u
        && u <= 0x200a) || u == 0x2028 || u == 0x2029 || u == 0x202f || u == 0x205f || u == 0x3000
}

/// Number of leading white-space characters.
pub open spec fn lead_ws(s: Seq<char>) -> nat
    decreases s.len(),
{
    if s.len() > 0 && is_ws(s[0]) {
        1 + lead_ws(s.drop_first())
    } else {
        0
    }
}

/// Number of trailing white-space characters.
pub open spec fn trail_ws(s: Seq<char>) -> nat
    decreases s.len(),
{
    if s.len() > 0 && is_ws(s.last()) {
        1 + trail_ws(s.drop_last())
    } else {
        0
    }
}

/// `s` without leading and trailing white space (`str::trim`).
pub open spec fn trim_spec(s: Seq<char>) -> Seq<char> {
    let a = s.skip(lead_ws(s) as int);
    a.take(a.len() - trail_ws(a))
}

proof fn lemma_lead_ws(s: Seq<char>, i: int)
    requires
        0 <= i <= s.len(),
        forall|j: int| 0 <= j < i ==> is_ws(#[trigger] s[j]),
        i == s.len() || !is_ws(s[i]),
    ensures
        lead_ws(s) == i,
    decreases i,
{
    if i > 0 {
        lemma_lead_ws(s.drop_first(), i - 1);
    }
}

proof fn lemma_trail_ws(s: Seq<char>, k: int)
    requires
        0 <= k <= s.len(),
        forall|j: int| s.len() - k <= j < s.len() ==> is_ws(#[trigger] s[j]),
        k == s.len() || !is_ws(s[s.len() - k - 1]),
    ensures
        trail_ws(s) == k,
    decreases k,
{
    if k > 0 {
        lemma_trail_ws(s.drop_last(), k - 1);
    }
}

/// `s` without leading and trailing white space.
pub fn trim(s: &[char]) -> (r: Vec<char>)
    ensures
        r@ == trim_spec(s@),
        exists|lo: int, hi: int|
            0 <= lo <= hi <= s@.len() && r@ == s@.subrange(lo, hi) && (forall|j: int|
                0 <= j < lo ==> is_ws(#[trigger] s@[j])) && (forall|j: int|
                hi <= j < s@.len() ==> is_ws(#[trigger] s@[j])),
        r@.len() > 0 ==> !is_ws(r@[0]) && !is_ws(r@[r@.len() - 1]),
{
    let n = s.len();
    let mut lo: usize = 0;
    while lo < n && is_whitespace(s[lo])
        invariant
            lo <= n,
            n == s@.len(),
            forall|j: int| 0 <= j < lo ==> is_ws(#[trigger] s@[j]),
        decreases n - lo,
    {
        lo = lo + 1;
    }
    let mut hi: usize = n;
    while hi > lo && is_whitespace(s[hi - 1])
        invariant
            lo <= hi <= n,
            n == s@.len(),
            forall|j: int| hi <= j < n ==> is_ws(#[trigger] s@[j]),
        decreases hi - lo,
    {
        hi = hi - 1;
    }
    let mut r: Vec<char> = Vec::new();
    let mut k: usize = lo;
    while k < hi
        invariant
            lo <= k <= hi <= n,
            n == s@.len(),
            r@ == s@.subrange(lo as int, k as int),
        decreases hi - k,
    {
        r.push(s[k]);
        k = k + 1;
        proof {
            assert(r@ =~= s@.subrange(lo as int, k as int));
        }
    }
    proof {
        lemma_lead_ws(s@, lo as int);
        let a = s@.skip(lo as int);
        if lo < n {
            assert(!is_ws(s@[lo as int]));
            assert(hi > lo);
            assert(!is_ws(s@[hi - 1]));
            lemma_trail_ws(a, (n - hi) as int);
        } else {
            lemma_trail_ws(a, 0);
        }
        assert(r@ =~= trim_spec(s@));
        assert(r@ == s@.subrange(lo as int, hi as int));
        if r@.len() > 0 {
            assert(r@[0] == s@[lo as int]);
            assert(r@[r@.len() - 1] == s@[hi - 1]);
        }
    }
    r
}

/// `s` begins with `p`.
pub open spec fn starts_with(s: Seq<char>, p: Seq<char>) -> bool {
    p.len() <= s.len() && s.take(p.len() as int) == p
}

/// `str::strip_prefix`: what follows `p` in `s`, when `s` begins with `p`.
pub fn strip_prefix(s: &[char], p: &[char]) -> (r: Option<Vec<char>>)
    ensures
        match r {
            Some(rest) => starts_with(s@, p@) && rest@ == s@.skip(p@.len() as int),
            None => !starts_with(s@, p@),
        },
{
    if p.len() > s.len() {
        return None;
    }
    let mut i: usize = 0;
    while i < p.len()
        invariant
            p@.len() <= s@.len(),
            i <= p@.len(),
            forall|j: int| 0 <= j < i ==> s@[j] == p@[j],
        decreases p@.len() - i,
    {
        if s[i] != p[i] {
            proof {
                assert(s@.take(p@.len() as int)[i as int] != p@[i as int]);
            }
            return None;
        }
        i = i + 1;
    }
    let mut rest: Vec<char> = Vec::new();
    let mut k: usize = p.len();
    while k < s.len()
        invariant
            p@.len() <= k <= s@.len(),
            rest@ == s@.subrange(p@.len() as int, k as int),
        decreases s@.len() - k,
    {
        rest.push(s[k]);
        k = k + 1;
        proof {
            assert(rest@ =~= s@.subrange(p@.len() as int, k as int));
        }
    }
    proof {
        assert(s@.take(p@.len() as int) =~= p@);
        assert(rest@ =~= s@.skip(p@.len() as int));
    }
    Some(rest)
}

/// Position of the first `c` in `s`, or `-1`.
pub open spec fn index_of(s: Seq<char>, c: char) -> int
    decreases s.len(),
{
    if s.len() == 0 {
        -1
    } else if s[0] == c {
        0
    } else {
        let k = index_of(s.drop_first(), c);
        if k < 0 {
            -1
        } else {
            k + 1
        }
    }
}

/// The first occurrence of `c` is at `i` when none comes before.
pub proof fn lemma_index_of_exact(s: Seq<char>, c: char, i: int)
    requires
        0 <= i <= s.len(),
        forall|j: int| 0 <= j < i ==> #[trigger] s[j] != c,
        i == s.len() || s[i] == c,
    ensures
        index_of(s, c) == (if i == s.len() { -1 } else { i }),
{
    lemma_index_of(s, c, i);
}

proof fn lemma_index_of(s: Seq<char>, c: char, i: int)
    requires
        0 <= i <= s.len(),
        forall|j: int| 0 <= j < i ==> #[trigger] s[j] != c,
        i == s.len() || s[i] == c,
    ensures
        index_of(s, c) == (if i == s.len() { -1 } else { i }),
    decreases i,
{
    if i > 0 {
        lemma_index_of(s.drop_first(), c, i - 1);
    }
}

/// Where the first occurrence found by `index_of` lies.
pub proof fn lemma_index_of_props(s: Seq<char>, c: char)
    ensures
        -1 <= index_of(s, c) < s.len(),
        index_of(s, c) >= 0 ==> s[index_of(s, c)] == c,
        forall|j: int| 0 <= j < s.len() && (index_of(s, c) < 0 || j < index_of(s, c)) ==> #[trigger] s[j] != c,
    decreases s.len(),
{
    if s.len() > 0 {
        lemma_index_of_props(s.drop_first(), c);
        assert forall|j: int| 0 <= j < s.len() && (index_of(s, c) < 0 || j < index_of(s, c)) implies #[trigger] s[j] != c by {
            if j > 0 {
                assert(s.drop_first()[j - 1] == s[j]);
            }
        }
    }
}

/// The pieces of `s` between occurrences of `sep` (`str::split` with a character).
pub open spec fn split_spec(s: Seq<char>, sep: char) -> Seq<Seq<char>>
    decreases s.len(),
{
    let i = index_of(s, sep);
    if i < 0 {
        seq![s]
    } else {
        proof {
            lemma_index_of_props(s, sep);
        }
        seq![s.take(i)] + split_spec(s.skip(i + 1), sep)
    }
}

/// A string without the separator is one piece.
pub proof fn lemma_split_single(x: Seq<char>, sep: char)
    requires
        forall|j: int| 0 <= j < x.len() ==> #[trigger] x[j] != sep,
    ensures
        split_spec(x, sep) == seq![x],
{
    lemma_index_of_exact(x, sep, x.len() as int);
}

/// Splitting distributes over the separator: the pieces of `x␞y` are those of `x`
/// followed by those of `y`.
pub proof fn lemma_split_append(x: Seq<char>, y: Seq<char>, sep: char)
    ensures
        split_spec(x + seq![sep] + y, sep) == split_spec(x, sep) + split_spec(y, sep),
    decreases x.len(),
{
    let s = x + seq![sep] + y;
    lemma_index_of_props(x, sep);
    let i = index_of(x, sep);
    if i < 0 {
        assert forall|j: int| 0 <= j < x.len() implies #[trigger] s[j] != sep by {
            assert(s[j] == x[j]);
        }
        assert(s[x.len() as int] == sep);
        lemma_index_of_exact(s, sep, x.len() as int);
        lemma_index_of_exact(x, sep, x.len() as int);
        assert(s.take(x.len() as int) =~= x);
        assert(s.skip(x.len() as int + 1) =~= y);
    } else {
        assert forall|j: int| 0 <= j < i implies #[trigger] s[j] != sep by {
            assert(s[j] == x[j]);
        }
        assert(s[i] == sep);
        lemma_index_of_exact(s, sep, i);
        assert(s.take(i) =~= x.take(i));
        assert(s.skip(i + 1) =~= x.skip(i + 1) + seq![sep] + y);
        lemma_split_append(x.skip(i + 1), y, sep);
        assert(split_spec(x, sep) == seq![x.take(i)] + split_spec(x.skip(i + 1), sep));
        assert(split_spec(s, sep) == seq![s.take(i)] + split_spec(s.skip(i + 1), sep));
        assert(split_spec(s, sep) =~= split_spec(x, sep) + split_spec(y, sep));
    }
}

/// At most `n` pieces of `s` between occurrences of `sep`, the last piece holding the
/// rest (`str::splitn` with a character).
pub open spec fn splitn_spec(s: Seq<char>, n: nat, sep: char) -> Seq<Seq<char>>
    decreases n,
{
    if n == 0 {
        Seq::empty()
    } else if n == 1 {
        seq![s]
    } else {
        let i = index_of(s, sep);
        if i < 0 {
            seq![s]
        } else {
            seq![s.take(i)] + splitn_spec(s.skip(i + 1), (n - 1) as nat, sep)
        }
    }
}

/// First position at or after `from` where `sep` occurs, or `s.len()`.
fn find_from(s: &[char], from: usize, sep: char) -> (r: usize)
    requires
        from <= s@.len(),
    ensures
        from <= r <= s@.len(),
        index_of(s@.skip(from as int), sep) == (if r == s@.len() { -1 } else { r - from }),
{
    let mut i = from;
    while i < s.len() && s[i] != sep
        invariant
            from <= i <= s@.len(),
            forall|j: int| from <= j < i ==> #[trigger] s@[j] != sep,
        decreases s@.len() - i,
    {
        i = i + 1;
    }
    proof {
        let t = s@.skip(from as int);
        assert forall|j: int| 0 <= j < i - from implies #[trigger] t[j] != sep by {
            assert(t[j] == s@[j + from]);
        }
        lemma_index_of(t, sep, i - from);
    }
    i
}

/// Copy of `s[lo..hi]`.
pub fn slice_to_vec(s: &[char], lo: usize, hi: usize) -> (r: Vec<char>)
    requires
        lo <= hi <= s@.len(),
    ensures
        r@ == s@.subrange(lo as int, hi as int),
{
    let mut r: Vec<char> = Vec::new();
    let mut k = lo;
    while k < hi
        invariant
            lo <= k <= hi <= s@.len(),
            r@ == s@.subrange(lo as int, k as int),
        decreases hi - k,
    {
        r.push(s[k]);
        k = k + 1;
        proof {
            assert(r@ =~= s@.subrange(lo as int, k as int));
        }
    }
    r
}

/// The pieces of `s` between occurrences of `sep`.
pub fn split(s: &[char], sep: char) -> (r: Vec<Vec<char>>)
    ensures
        r@.len() == split_spec(s@, sep).len(),
        forall|k: int| 0 <= k < r@.len() ==> (#[trigger] r@[k])@ == split_spec(s@, sep)[k],
{
    let mut r: Vec<Vec<char>> = Vec::new();
    let mut from: usize = 0;
    let ghost mut pieces: Seq<Seq<char>> = Seq::empty();
    proof {
        assert(s@.skip(0) =~= s@);
        assert(split_spec(s@, sep) =~= pieces + split_spec(s@.skip(0), sep));
    }
    loop
        invariant
            from <= s@.len(),
            pieces.len() == r@.len(),
            forall|k: int| 0 <= k < r@.len() ==> (#[trigger] r@[k])@ == pieces[k],
            split_spec(s@, sep) == pieces + split_spec(s@.skip(from as int), sep),
        decreases s@.len() - from,
    {
        let ghost t = s@.skip(from as int);
        let i = find_from(s, from, sep);
        let piece = slice_to_vec(s, from, i);
        proof {
            assert(piece@ =~= t.take(i - from));
        }
        if i == s.len() {
            proof {
                assert(split_spec(t, sep) == seq![t]);
                assert(piece@ =~= t);
                pieces = pieces.push(piece@);
                assert(split_spec(s@, sep) =~= pieces);
            }
            r.push(piece);
            return r;
        }
        proof {
            lemma_index_of_props(t, sep);
            assert(split_spec(t, sep) == seq![t.take(i - from)] + split_spec(t.skip(i - from + 1), sep));
            assert(t.skip(i - from + 1) =~= s@.skip(i + 1));
            pieces = pieces.push(piece@);
            assert(split_spec(s@, sep) =~= pieces + split_spec(s@.skip(i + 1), sep));
        }
        r.push(piece);
        from = i + 1;
    }
}

/// At most `n` pieces of `s` between occurrences of `sep`, the last holding the rest.
pub fn splitn(s: &[char], n: usize, sep: char) -> (r: Vec<Vec<char>>)
    ensures
        r@.len() == splitn_spec(s@, n as nat, sep).len(),
        forall|k: int| 0 <= k < r@.len() ==> (#[trigger] r@[k])@ == splitn_spec(s@, n as nat, sep)[k],
{
    let mut r: Vec<Vec<char>> = Vec::new();
    if n == 0 {
        return r;
    }
    let mut from: usize = 0;
    let mut left: usize = n;
    let ghost mut pieces: Seq<Seq<char>> = Seq::empty();
    proof {
        assert(s@.skip(0) =~= s@);
        assert(splitn_spec(s@, n as nat, sep) =~= pieces + splitn_spec(s@.skip(0), n as nat, sep));
    }
    loop
        invariant
            from <= s@.len(),
            1 <= left <= n,
            pieces.len() == r@.len(),
            forall|k: int| 0 <= k < r@.len() ==> (#[trigger] r@[k])@ == pieces[k],
            splitn_spec(s@, n as nat, sep) == pieces + splitn_spec(s@.skip(from as int), left as nat, sep),
        decreases left,
    {
        let ghost t = s@.skip(from as int);
        if left == 1 {
            let piece = slice_to_vec(s, from, s.len());
            proof {
                assert(piece@ =~= t);
                pieces = pieces.push(piece@);
                assert(splitn_spec(s@, n as nat, sep) =~= pieces);
            }
            r.push(piece);
            return r;
        }
        let i = find_from(s, from, sep);
        let piece = slice_to_vec(s, from, i);
        proof {
            assert(piece@ =~= t.take(i - from));
        }
        if i == s.len() {
            proof {
                assert(piece@ =~= t);
                pieces = pieces.push(piece@);
                assert(splitn_spec(s@, n as nat, sep) =~= pieces);
            }
            r.push(piece);
            return r;
        }
        proof {
            assert(t.skip(i - from + 1) =~= s@.skip(i + 1));
            pieces = pieces.push(piece@);
            assert(splitn_spec(s@, n as nat, sep) =~= pieces + splitn_spec(s@.skip(i + 1), (left - 1) as nat, sep));
        }
        r.push(piece);
        from = i + 1;
        left = left - 1;
    }
}


/// An ASCII decimal digit.
pub open spec fn is_digit(c: char) -> bool {
    '0' <= c <= '9'
}

/// Value of an ASCII digit.
pub open spec fn digit_val(c: char) -> nat {
    (c as u32 - '0' as u32) as nat
}

/// Value of a string of decimal digits (most significant first).
pub open spec fn digits_value(s: Seq<char>) -> nat
    decreases s.len(),
{
    if s.len() == 0 {
        0
    } else {
        digits_value(s.drop_last()) * 10 + digit_val(s.last())
    }
}

/// The digits of an unsigned number as `str::parse` reads it: one optional `+` first.
pub open spec fn unsigned_digits(s: Seq<char>) -> Seq<char> {
    if s.len() > 0 && s[0] == '+' {
        s.drop_first()
    } else {
        s
    }
}

/// `s` reads as an unsigned number of at most `max` (`str::parse` of an unsigned type).
pub open spec fn parses_unsigned(s: Seq<char>, max: nat) -> bool {
    let d = unsigned_digits(s);
    &&& d.len() > 0
    &&& forall|i: int| 0 <= i < d.len() ==> is_digit(#[trigger] d[i])
    &&& digits_value(d) <= max
}

/// The value `s` reads as.
pub open spec fn unsigned_value(s: Seq<char>) -> nat {
    digits_value(unsigned_digits(s))
}

proof fn lemma_digits_prefix_le(s: Seq<char>, i: int)
    requires
        0 <= i <= s.len(),
    ensures
        digits_value(s.take(i)) <= digits_value(s),
    decreases s.len() - i,
{
    if i < s.len() {
        lemma_digits_prefix_le(s, i + 1);
        assert(s.take(i + 1).drop_last() =~= s.take(i));
        assert(digits_value(s.take(i + 1)) == digits_value(s.take(i)) * 10 + digit_val(s[i]));
    } else {
        assert(s.take(i) =~= s);
    }
}

/// Reads an unsigned decimal number of at most `max`, as `str::parse` of an unsigned
/// integer type whose largest value is `max` does.
pub fn parse_unsigned(s: &[char], max: u128) -> (r: Option<u128>)
    ensures
        r is Some <==> parses_unsigned(s@, max as nat),
        r matches Some(v) ==> v == unsigned_value(s@),
{
    let start: usize = if s.len() > 0 && s[0] == '+' { 1 } else { 0 };
    let ghost d = unsigned_digits(s@);
    proof {
        assert(d =~= s@.skip(start as int));
    }
    if start == s.len() {
        proof {
            assert(d.len() == 0);
        }
        return None;
    }
    let mut acc: u128 = 0;
    let mut i: usize = start;
    while i < s.len()
        invariant
            start <= i <= s@.len(),
            d == s@.skip(start as int),
            d == unsigned_digits(s@),
            forall|j: int| 0 <= j < i - start ==> is_digit(#[trigger] d[j]),
            acc == digits_value(d.take(i - start)),
            acc <= max,
        decreases s@.len() - i,
    {
        let c = s[i];
        if !('0' <= c && c <= '9') {
            proof {
                assert(d[i - start] == c);
                assert(!is_digit(d[i - start]));
            }
            return None;
        }
        let dv = (c as u32 - '0' as u32) as u128;
        proof {
            assert(d.take(i - start + 1).drop_last() =~= d.take(i - start));
            assert(d.take(i - start + 1).last() == c);
            assert(d[i - start] == c);
        }
        if dv > max || acc > (max - dv) / 10 {
            proof {
                assert(acc * 10 + dv > max) by (nonlinear_arith)
                    requires dv > max || acc > (max - dv) / 10, max >= 0, dv >= 0, acc >= 0;
                assert(digit_val(c) == dv);
                assert(digits_value(d.take(i - start + 1)) == acc * 10 + dv);
                lemma_digits_prefix_le(d, i - start + 1);
            }
            return None;
        }
        proof {
            assert(acc * 10 + dv <= max) by (nonlinear_arith)
                requires dv <= max, acc <= (max - dv) / 10;
        }
        proof {
            assert(digit_val(c) == dv);
        }
        acc = acc * 10 + dv;
        i = i + 1;
    }
    proof {
        assert(d.take(i - start) =~= d);
    }
    Some(acc)
}

/// The character of a decimal digit value.
pub open spec fn digit_char(d: nat) -> char {
    (48 + d) as char
}

/// Decimal writing of `n`, without sign or leading zero (`n.to_string()`).
pub open spec fn decimal(n: nat) -> Seq<char>
    decreases n,
{
    if n < 10 {
        seq![digit_char(n)]
    } else {
        decimal(n / 10).push(digit_char(n % 10))
    }
}

fn push_decimal(n: u128, out: &mut Vec<char>)
    ensures
        final(out)@ == old(out)@ + decimal(n as nat),
    decreases n,
{
    if n >= 10 {
        push_decimal(n / 10, out);
    }
    let d = (n % 10) as u8;
    let c = (48u8 + d) as char;
    proof {
        assert(c == digit_char((n % 10) as nat));
    }
    out.push(c);
    proof {
        if n >= 10 {
            assert(decimal(n as nat) == decimal((n / 10) as nat).push(digit_char((n % 10) as nat)));
        }
    }
}

/// Decimal writing of `n`.
pub fn to_decimal(n: u128) -> (r: Vec<char>)
    ensures
        r@ == decimal(n as nat),
{
    let mut r: Vec<char> = Vec::new();
    push_decimal(n, &mut r);
    proof {
        assert(r@ =~= decimal(n as nat));
    }
    r
}

/// Reading back a decimal writing gives the number.
pub proof fn lemma_decimal_roundtrip(n: nat)
    ensures
        decimal(n).len() > 0,
        decimal(n)[0] != '+',
        forall|i: int| 0 <= i < decimal(n).len() ==> is_digit(#[trigger] decimal(n)[i]),
        digits_value(decimal(n)) == n,
        unsigned_digits(decimal(n)) == decimal(n),
        unsigned_value(decimal(n)) == n,
    decreases n,
{
    let d = n % 10;
    assert(digit_char(d) as u32 == 48 + d);
    assert(digit_val(digit_char(d)) == d);
    if n < 10 {
        assert(decimal(n).drop_last() =~= Seq::<char>::empty());
        assert(d == n);
        assert(digits_value(decimal(n)) == digits_value(Seq::<char>::empty()) * 10 + digit_val(digit_char(d)));
    }
    if n >= 10 {
        lemma_decimal_roundtrip(n / 10);
        let p = decimal(n / 10);
        assert(decimal(n).drop_last() =~= p);
        assert(decimal(n).last() == digit_char(d));
        assert(digits_value(decimal(n)) == digits_value(p) * 10 + digit_val(digit_char(d)));
        assert((n / 10) * 10 + d == n);
        assert forall|i: int| 0 <= i < decimal(n).len() implies is_digit(#[trigger] decimal(n)[i]) by {
            if i < p.len() {
                assert(decimal(n)[i] == p[i]);
            }
        }
    }
}

/// `n` spaces.
pub open spec fn spaces(n: nat) -> Seq<char> {
    Seq::new(n, |i: int| ' ')
}

fn push_spaces(out: &mut Vec<char>, n: usize)
    ensures
        final(out)@ == old(out)@ + spaces(n as nat),
{
    let mut k: usize = 0;
    while k < n
        invariant
            k <= n,
            out@ == old(out)@ + spaces(k as nat),
        decreases n - k,
    {
        out.push(' ');
        k = k + 1;
        proof {
            assert(out@ =~= old(out)@ + spaces(k as nat));
        }
    }
}

/// `s` followed by spaces up to `w` characters (`{:<w}`).
pub open spec fn pad_right(s: Seq<char>, w: nat) -> Seq<char> {
    if s.len() >= w {
        s
    } else {
        s + spaces((w - s.len()) as nat)
    }
}

/// Spaces then `s`, up to `w` characters (`{:>w}`).
pub open spec fn pad_left(s: Seq<char>, w: nat) -> Seq<char> {
    if s.len() >= w {
        s
    } else {
        spaces((w - s.len()) as nat) + s
    }
}

/// Appends `s` left-aligned in a field of `w` characters.
pub fn push_padded_right(out: &mut Vec<char>, s: &[char], w: usize)
    ensures
        final(out)@ == old(out)@ + pad_right(s@, w as nat),
{
    let mut k: usize = 0;
    while k < s.len()
        invariant
            k <= s@.len(),
            out@ == old(out)@ + s@.take(k as int),
        decreases s@.len() - k,
    {
        out.push(s[k]);
        k = k + 1;
        proof {
            assert(out@ =~= old(out)@ + s@.take(k as int));
        }
    }
    proof {
        assert(s@.take(k as int) =~= s@);
    }
    if s.len() < w {
        push_spaces(out, w - s.len());
        proof {
            assert(out@ =~= old(out)@ + pad_right(s@, w as nat));
        }
    }
}

/// Appends `s` right-aligned in a field of `w` characters.
pub fn push_padded_left(out: &mut Vec<char>, s: &[char], w: usize)
    ensures
        final(out)@ == old(out)@ + pad_left(s@, w as nat),
{
    if s.len() < w {
        push_spaces(out, w - s.len());
    }
    let ghost mid = out@;
    let mut k: usize = 0;
    while k < s.len()
        invariant
            k <= s@.len(),
            out@ == mid + s@.take(k as int),
        decreases s@.len() - k,
    {
        out.push(s[k]);
        k = k + 1;
        proof {
            assert(out@ =~= mid + s@.take(k as int));
        }
    }
    proof {
        assert(s@.take(k as int) =~= s@);
        assert(out@ =~= old(out)@ + pad_left(s@, w as nat));
    }
}

/// Appends all of `s`.
pub fn push_all(out: &mut Vec<char>, s: &[char])
    ensures
        final(out)@ == old(out)@ + s@,
{
    let mut k: usize = 0;
    while k < s.len()
        invariant
            k <= s@.len(),
            out@ == old(out)@ + s@.take(k as int),
        decreases s@.len() - k,
    {
        out.push(s[k]);
        k = k + 1;
        proof {
            assert(out@ =~= old(out)@ + s@.take(k as int));
        }
    }
    proof {
        assert(s@.take(k as int) =~= s@);
    }
}


/// `p` occurs in `s` at position `i`.
pub open spec fn occurs_at(s: Seq<char>, p: Seq<char>, i: int) -> bool {
    0 <= i && i + p.len() <= s.len() && s.subrange(i, i + p.len()) == p
}

/// Position of the first occurrence of `p` in `s`, or `-1`.
#[verifier::opaque]
pub open spec fn index_of_str(s: Seq<char>, p: Seq<char>) -> int {
    if exists|i: int| #[trigger] occurs_at(s, p, i) {
        choose|i: int| #[trigger] occurs_at(s, p, i) && forall|j: int| 0 <= j < i ==> !occurs_at(s, p, j)
    } else {
        -1
    }
}

proof fn lemma_index_of_str(s: Seq<char>, p: Seq<char>, i: int)
    requires
        0 <= i,
        occurs_at(s, p, i) || i + p.len() > s.len(),
        forall|j: int| 0 <= j < i ==> !occurs_at(s, p, j),
    ensures
        index_of_str(s, p) == (if occurs_at(s, p, i) { i } else { -1 }),
{
    reveal(index_of_str);
    if occurs_at(s, p, i) {
        assert(exists|k: int| #[trigger] occurs_at(s, p, k));
        let k = choose|k: int| #[trigger] occurs_at(s, p, k) && forall|j: int| 0 <= j < k ==> !occurs_at(s, p, j);
        if k < i {
            assert(!occurs_at(s, p, k));
        }
        if k > i {
            assert(!occurs_at(s, p, i));
        }
    } else {
        assert forall|k: int| !#[trigger] occurs_at(s, p, k) by {
            if k >= i {
                assert(k + p.len() > s.len());
            }
        }
    }
}

/// The pieces of `s` between occurrences of the non-empty pattern `p` (`str::split`).
#[verifier::opaque]
pub open spec fn split_str_spec(s: Seq<char>, p: Seq<char>) -> Seq<Seq<char>>
    decreases s.len(),
{
    let i = index_of_str(s, p);
    if p.len() == 0 || i < 0 || !occurs_at(s, p, i) {
        seq![s]
    } else {
        seq![s.take(i)] + split_str_spec(s.skip(i + p.len()), p)
    }
}

proof fn lemma_split_str_found(t: Seq<char>, p: Seq<char>, i: int)
    requires
        p.len() > 0,
        index_of_str(t, p) == i,
        i >= 0,
        occurs_at(t, p, i),
    ensures
        split_str_spec(t, p) == seq![t.take(i)] + split_str_spec(t.skip(i + p.len()), p),
{
    reveal(split_str_spec);
}

proof fn lemma_split_str_none(t: Seq<char>, p: Seq<char>)
    requires
        index_of_str(t, p) == -1,
    ensures
        split_str_spec(t, p) == seq![t],
{
    reveal(split_str_spec);
}

/// `p` occurs in `s` at `i`.
fn occurs_at_exec(s: &[char], p: &[char], i: usize) -> (r: bool)
    requires
        i <= s@.len(),
    ensures
        r == occurs_at(s@, p@, i as int),
{
    let n = s.len();
    if p.len() > n - i {
        return false;
    }
    let mut k: usize = 0;
    while k < p.len()
        invariant
            k <= p@.len(),
            n == s@.len(),
            i + p@.len() <= n,
            forall|j: int| 0 <= j < k ==> s@[i + j] == p@[j],
        decreases p@.len() - k,
    {
        if s[i + k] != p[k] {
            proof {
                assert(s@.subrange(i as int, i + p@.len())[k as int] != p@[k as int]);
            }
            return false;
        }
        k = k + 1;
    }
    proof {
        assert(s@.subrange(i as int, i + p@.len()) =~= p@);
    }
    true
}

/// First occurrence of `p` in `s` at or after `from`.
fn find_str_from(s: &[char], p: &[char], from: usize) -> (r: Option<usize>)
    requires
        from <= s@.len(),
        p@.len() > 0,
    ensures
        match r {
            Some(i) => from <= i && i + p@.len() <= s@.len() && index_of_str(s@.skip(from as int), p@)
                == i - from && occurs_at(s@.skip(from as int), p@, i - from),
            None => index_of_str(s@.skip(from as int), p@) == -1,
        },
{
    let ghost t = s@.skip(from as int);
    let mut i = from;
    while i < s.len()
        invariant
            from <= i <= s@.len(),
            t == s@.skip(from as int),
            forall|j: int| 0 <= j < i - from ==> !occurs_at(t, p@, j),
        decreases s@.len() - i,
    {
        if occurs_at_exec(s, p, i) {
            proof {
                assert(t.subrange(i - from, i - from + p@.len()) =~= s@.subrange(i as int, i + p@.len()));
                lemma_index_of_str(t, p@, i - from);
            }
            return Some(i);
        }
        proof {
            if i + p@.len() <= s@.len() {
                assert(t.subrange(i - from, i - from + p@.len()) =~= s@.subrange(i as int, i + p@.len()));
            }
        }
        i = i + 1;
    }
    proof {
        lemma_index_of_str(t, p@, t.len() as int);
    }
    None
}

/// The pieces of `s` between occurrences of the non-empty pattern `p`.
pub fn split_str(s: &[char], p: &[char]) -> (r: Vec<Vec<char>>)
    requires
        p@.len() > 0,
    ensures
        r@.len() == split_str_spec(s@, p@).len(),
        forall|k: int| 0 <= k < r@.len() ==> (#[trigger] r@[k])@ == split_str_spec(s@, p@)[k],
{
    let mut r: Vec<Vec<char>> = Vec::new();
    let mut from: usize = 0;
    let ghost mut pieces: Seq<Seq<char>> = Seq::empty();
    proof {
        assert(s@.skip(0) =~= s@);
        assert(split_str_spec(s@, p@) =~= pieces + split_str_spec(s@.skip(0), p@));
    }
    loop
        invariant
            p@.len() > 0,
            from <= s@.len(),
            pieces.len() == r@.len(),
            forall|k: int| 0 <= k < r@.len() ==> (#[trigger] r@[k])@ == pieces[k],
            split_str_spec(s@, p@) == pieces + split_str_spec(s@.skip(from as int), p@),
        decreases s@.len() - from,
    {
        let ghost t = s@.skip(from as int);
        match find_str_from(s, p, from) {
            None => {
                let piece = slice_to_vec(s, from, s.len());
                proof {
                    assert(piece@ =~= t);
                    lemma_split_str_none(t, p@);
                    pieces = pieces.push(piece@);
                    assert(split_str_spec(s@, p@) =~= pieces);
                }
                r.push(piece);
                return r;
            },
            Some(i) => {
                let piece = slice_to_vec(s, from, i);
                proof {
                    assert(piece@ =~= t.take(i - from));
                    lemma_split_str_found(t, p@, i - from);
                    assert(t.skip(i - from + p@.len()) =~= s@.skip(i + p@.len()));
                    pieces = pieces.push(piece@);
                    assert(split_str_spec(s@, p@) =~= pieces + split_str_spec(s@.skip(i + p@.len()), p@));
                }
                r.push(piece);
                let n = s.len();
                assert(i + p@.len() <= n);
                from = i + p.len();
            },
        }
    }
}


/// Position of the first white-space character of `s`, or `s.len()`.
pub open spec fn ws_index(s: Seq<char>) -> nat
    decreases s.len(),
{
    if s.len() == 0 {
        0
    } else if is_ws(s[0]) {
        0
    } else {
        1 + ws_index(s.drop_first())
    }
}

/// Where the leading white space ends.
pub proof fn lemma_lead_ws_props(s: Seq<char>)
    ensures
        lead_ws(s) <= s.len(),
        lead_ws(s) < s.len() ==> !is_ws(s[lead_ws(s) as int]),
        forall|j: int| 0 <= j < lead_ws(s) ==> is_ws(#[trigger] s[j]),
    decreases s.len(),
{
    if s.len() > 0 && is_ws(s[0]) {
        lemma_lead_ws_props(s.drop_first());
        assert forall|j: int| 0 <= j < lead_ws(s) implies is_ws(#[trigger] s[j]) by {
            if j > 0 {
                assert(s.drop_first()[j - 1] == s[j]);
            }
        }
    }
}

/// Where the first word ends.
pub proof fn lemma_ws_index_props(s: Seq<char>)
    ensures
        ws_index(s) <= s.len(),
        ws_index(s) < s.len() ==> is_ws(s[ws_index(s) as int]),
        forall|j: int| 0 <= j < ws_index(s) ==> !is_ws(#[trigger] s[j]),
    decreases s.len(),
{
    if s.len() > 0 && !is_ws(s[0]) {
        lemma_ws_index_props(s.drop_first());
        assert forall|j: int| 0 <= j < ws_index(s) implies !is_ws(#[trigger] s[j]) by {
            if j > 0 {
                assert(s.drop_first()[j - 1] == s[j]);
            }
        }
    }
}

/// The words of `s`: its maximal runs of non-white-space characters
/// (`str::split_whitespace`).
pub open spec fn words(s: Seq<char>) -> Seq<Seq<char>>
    decreases s.len(),
{
    let a = s.skip(lead_ws(s) as int);
    if lead_ws(s) > s.len() || a.len() == 0 {
        Seq::empty()
    } else {
        proof {
            lemma_lead_ws_props(s);
            lemma_ws_index_props(a);
            assert(a[0] == s[lead_ws(s) as int]);
        }
        seq![a.take(ws_index(a) as int)] + words(a.skip(ws_index(a) as int))
    }
}

proof fn lemma_lead_ws_exact(s: Seq<char>, i: int)
    requires
        0 <= i <= s.len(),
        forall|j: int| 0 <= j < i ==> is_ws(#[trigger] s[j]),
        i == s.len() || !is_ws(s[i]),
    ensures
        lead_ws(s) == i,
{
    lemma_lead_ws(s, i);
}

proof fn lemma_ws_index_exact(s: Seq<char>, i: int)
    requires
        0 <= i <= s.len(),
        forall|j: int| 0 <= j < i ==> !is_ws(#[trigger] s[j]),
        i == s.len() || is_ws(s[i]),
    ensures
        ws_index(s) == i,
    decreases i,
{
    if i > 0 {
        lemma_ws_index_exact(s.drop_first(), i - 1);
    }
}

/// The words of `s`.
pub fn split_whitespace(s: &[char]) -> (r: Vec<Vec<char>>)
    ensures
        r@.len() == words(s@).len(),
        forall|k: int| 0 <= k < r@.len() ==> (#[trigger] r@[k])@ == words(s@)[k],
{
    let mut r: Vec<Vec<char>> = Vec::new();
    let n = s.len();
    let mut pos: usize = 0;
    let ghost mut pieces: Seq<Seq<char>> = Seq::empty();
    proof {
        assert(s@.skip(0) =~= s@);
        assert(words(s@) =~= pieces + words(s@.skip(0)));
    }
    loop
        invariant
            pos <= n,
            n == s@.len(),
            pieces.len() == r@.len(),
            forall|k: int| 0 <= k < r@.len() ==> (#[trigger] r@[k])@ == pieces[k],
            words(s@) == pieces + words(s@.skip(pos as int)),
        decreases n - pos,
    {
        let ghost t = s@.skip(pos as int);
        let mut a = pos;
        while a < n && is_whitespace(s[a])
            invariant
                pos <= a <= n,
                n == s@.len(),
                forall|j: int| pos <= j < a ==> is_ws(#[trigger] s@[j]),
            decreases n - a,
        {
            a = a + 1;
        }
        proof {
            assert forall|j: int| 0 <= j < a - pos implies is_ws(#[trigger] t[j]) by {
                assert(t[j] == s@[j + pos]);
            }
            lemma_lead_ws_exact(t, a - pos);
        }
        if a == n {
            proof {
                assert(t.skip(a - pos).len() == 0);
                assert(words(t) =~= Seq::<Seq<char>>::empty());
                assert(words(s@) =~= pieces);
            }
            return r;
        }
        let mut b = a;
        while b < n && !is_whitespace(s[b])
            invariant
                a <= b <= n,
                n == s@.len(),
                forall|j: int| a <= j < b ==> !is_ws(#[trigger] s@[j]),
            decreases n - b,
        {
            b = b + 1;
        }
        let word = slice_to_vec(s, a, b);
        proof {
            let u = t.skip(a - pos);
            assert(u =~= s@.skip(a as int));
            assert forall|j: int| 0 <= j < b - a implies !is_ws(#[trigger] u[j]) by {
                assert(u[j] == s@[j + a]);
            }
            lemma_ws_index_exact(u, b - a);
            assert(word@ =~= u.take(b - a));
            assert(u.skip(b - a) =~= s@.skip(b as int));
            assert(words(t) == seq![u.take(b - a)] + words(u.skip(b - a)));
            pieces = pieces.push(word@);
            assert(words(s@) =~= pieces + words(s@.skip(b as int)));
        }
        r.push(word);
        pos = b;
    }
}

/// Equality of character sequences.
pub fn chars_equal(a: &[char], b: &[char]) -> (r: bool)
    ensures
        r == (a@ == b@),
{
    if a.len() != b.len() {
        return false;
    }
    let mut i: usize = 0;
    while i < a.len()
        invariant
            i <= a@.len(),
            a@.len() == b@.len(),
            forall|j: int| 0 <= j < i ==> a@[j] == b@[j],
        decreases a@.len() - i,
    {
        if a[i] != b[i] {
            return false;
        }
        i = i + 1;
    }
    proof {
        assert(a@ =~= b@);
    }
    true
}

} // verus!
