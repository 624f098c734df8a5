//! Decoding of the messages the engine sends to the monitor.
use vstd::prelude::*;
use crate::text::{
    chars_equal, from_chars, index_of, lemma_index_of_props, parse_unsigned, parses_unsigned,
    slice_to_vec, split, split_spec, split_whitespace, splitn, splitn_spec, starts_with,
    strip_prefix, to_chars, trim, trim_spec, unsigned_value, words,
};

verus! {

/// Statistics of one level of detail of the terrain.
#[derive(Clone, Copy, PartialEq, Eq, Debug)]
pub struct WorldLod {
    pub lod: u32,
    pub chunks: usize,
    pub vertices: usize,
}

/// Statistics of a generated terrain: the plain-text summary and one entry per level.
pub struct WorldStats {
    pub summary: Option<String>,
    pub lods: Vec<WorldLod>,
}

} // verus!

verus! {

/// Separator of records in a message body (ASCII record separator).
pub open spec fn record_sep() -> char {
    '\u{1e}'
}

/// Separator of fields in a record (ASCII unit separator).
pub open spec fn field_sep() -> char {
    '\u{1f}'
}

/// A node of a profiling tree as decoded from a `[PROFILE_*]` message.
pub struct ProfileNode {
    pub depth: usize,
    pub dur_us: u128,
    pub count: u32,
    pub name: String,
}

/// The node a record `depth␟dur_us␟count␟name` stands for, if it is well formed.
pub open spec fn record_node(rec: Seq<char>) -> Option<(usize, u128, u32, Seq<char>)> {
    let f = splitn_spec(rec, 4, field_sep());
    if f.len() == 4 && parses_unsigned(f[0], usize::MAX as nat) && parses_unsigned(
        f[1],
        u128::MAX as nat,
    ) && parses_unsigned(f[2], u32::MAX as nat) {
        Some(
            (
                unsigned_value(f[0]) as usize,
                unsigned_value(f[1]) as u128,
                unsigned_value(f[2]) as u32,
                f[3],
            ),
        )
    } else {
        None
    }
}

/// The nodes of a sequence of records: empty and malformed records are skipped.
pub open spec fn records_nodes(recs: Seq<Seq<char>>) -> Seq<(usize, u128, u32, Seq<char>)>
    decreases recs.len(),
{
    if recs.len() == 0 {
        Seq::empty()
    } else {
        let prev = records_nodes(recs.drop_last());
        let r = recs.last();
        if r.len() == 0 {
            prev
        } else {
            match record_node(r) {
                Some(n) => prev.push(n),
                None => prev,
            }
        }
    }
}

/// The nodes of a `[PROFILE_*]` body: records separated by `␞`.
pub open spec fn profile_nodes_spec(body: Seq<char>) -> Seq<(usize, u128, u32, Seq<char>)> {
    records_nodes(split_spec(body, record_sep()))
}

/// `node` holds the decoded node `n`.
pub open spec fn node_is(node: ProfileNode, n: (usize, u128, u32, Seq<char>)) -> bool {
    node.depth == n.0 && node.dur_us == n.1 && node.count == n.2 && node.name@ == n.3
}

fn parse_record(rec: &[char]) -> (r: Option<ProfileNode>)
    ensures
        match (r, record_node(rec@)) {
            (Some(node), Some(n)) => node_is(node, n),
            (None, None) => true,
            _ => false,
        },
{
    let f = splitn(rec, 4, '\u{1f}');
    if f.len() != 4 {
        return None;
    }
    let depth = parse_unsigned(f[0].as_slice(), usize::MAX as u128);
    let dur = parse_unsigned(f[1].as_slice(), u128::MAX);
    let count = parse_unsigned(f[2].as_slice(), u32::MAX as u128);
    match (depth, dur, count) {
        (Some(d), Some(u), Some(c)) => {
            let name = from_chars(f[3].as_slice());
            Some(ProfileNode { depth: d as usize, dur_us: u, count: c as u32, name })
        },
        _ => None,
    }
}

/// Decodes the body of a `[PROFILE_*]` message: the whole tree at once, nodes already
/// in prefix order. Nodes are separated by `␞`, the four fields `depth␟dur_us␟count␟name`
/// by `␟`; malformed records are skipped.
pub fn parse_profile_nodes(rest: &[char]) -> (r: Vec<ProfileNode>)
    ensures
        r@.len() == profile_nodes_spec(rest@).len(),
        forall|i: int| 0 <= i < r@.len() ==> node_is(#[trigger] r@[i], profile_nodes_spec(rest@)[i]),
{
    let recs = split(rest, '\u{1e}');
    let ghost rs = split_spec(rest@, record_sep());
    let mut out: Vec<ProfileNode> = Vec::new();
    let mut k: usize = 0;
    while k < recs.len()
        invariant
            k <= recs@.len(),
            recs@.len() == rs.len(),
            forall|j: int| 0 <= j < recs@.len() ==> (#[trigger] recs@[j])@ == rs[j],
            out@.len() == records_nodes(rs.take(k as int)).len(),
            forall|i: int| 0 <= i < out@.len() ==> node_is(#[trigger] out@[i], records_nodes(rs.take(k as int))[i]),
        decreases recs@.len() - k,
    {
        proof {
            assert(rs.take(k + 1).drop_last() =~= rs.take(k as int));
            assert(rs.take(k + 1).last() == recs@[k as int]@);
        }
        let rec = recs[k].as_slice();
        if rec.len() > 0 {
            match parse_record(rec) {
                Some(node) => {
                    out.push(node);
                },
                None => {},
            }
        }
        k = k + 1;
    }
    proof {
        assert(rs.take(k as int) =~= rs);
    }
    out
}

/// A colour of the terminal palette.
#[derive(Clone, Copy, PartialEq, Eq, Debug)]
pub struct Rgb {
    pub r: u8,
    pub g: u8,
    pub b: u8,
}

/// ASCII letters made upper case, other characters kept (`str::to_ascii_uppercase`).
pub open spec fn ascii_upper(s: Seq<char>) -> Seq<char> {
    s.map_values(|c: char| if 'a' <= c <= 'z' { ((c as u32) - 32) as char } else { c })
}

/// Colour of a log tag, by its upper-cased text.
pub open spec fn tag_color_spec(tag: Seq<char>) -> Rgb {
    let t = ascii_upper(tag);
    if t == seq!['I', 'N', 'F', 'O'] {
        Rgb { r: 0x56, g: 0x9C, b: 0xD6 }
    } else if t == seq!['W', 'A', 'R', 'N'] || t == seq!['W', 'A', 'R', 'N', 'I', 'N', 'G'] {
        Rgb { r: 0xFF, g: 0xC6, b: 0x6D }
    } else if t == seq!['E', 'R', 'R', 'O', 'R'] {
        Rgb { r: 0xFF, g: 0x45, b: 0x00 }
    } else if t == seq!['V', 'U', 'L', 'K', 'A', 'N'] {
        Rgb { r: 0xBD, g: 0x93, b: 0xF9 }
    } else {
        Rgb { r: 0xBF, g: 0xBD, b: 0xB6 }
    }
}

fn upper_ascii(c: char) -> (r: char)
    ensures
        r == (if 'a' <= c <= 'z' { ((c as u32) - 32) as char } else { c }),
{
    if 'a' <= c && c <= 'z' {
        ((c as u8) - 32) as char
    } else {
        c
    }
}

fn chars_eq(a: &[char], b: &[char]) -> (r: bool)
    ensures
        r == (a@ == b@),
{
    if a.len() != b.len() {
        return false;
    }
    let mut i: usize = 0;
    while i < a.len()
        invariant
            i <= a@.len(),
            a@.len() == b@.len(),
            forall|j: int| 0 <= j < i ==> a@[j] == b@[j],
        decreases a@.len() - i,
    {
        if a[i] != b[i] {
            return false;
        }
        i = i + 1;
    }
    proof {
        assert(a@ =~= b@);
    }
    true
}

/// Colour of a log tag: known tags by their upper-cased text, anything else grey.
pub fn tag_color(tag: &[char]) -> (r: Rgb)
    ensures
        r == tag_color_spec(tag@),
{
    let mut t: Vec<char> = Vec::new();
    let mut i: usize = 0;
    while i < tag.len()
        invariant
            i <= tag@.len(),
            t@ == ascii_upper(tag@.take(i as int)),
        decreases tag@.len() - i,
    {
        t.push(upper_ascii(tag[i]));
        i = i + 1;
        proof {
            assert(t@ =~= ascii_upper(tag@.take(i as int)));
        }
    }
    proof {
        assert(tag@.take(i as int) =~= tag@);
    }
    let info = ['I', 'N', 'F', 'O'];
    let warn = ['W', 'A', 'R', 'N'];
    let warning = ['W', 'A', 'R', 'N', 'I', 'N', 'G'];
    let error = ['E', 'R', 'R', 'O', 'R'];
    let vulkan = ['V', 'U', 'L', 'K', 'A', 'N'];
    proof {
        assert(info@ =~= seq!['I', 'N', 'F', 'O']);
        assert(warn@ =~= seq!['W', 'A', 'R', 'N']);
        assert(warning@ =~= seq!['W', 'A', 'R', 'N', 'I', 'N', 'G']);
        assert(error@ =~= seq!['E', 'R', 'R', 'O', 'R']);
        assert(vulkan@ =~= seq!['V', 'U', 'L', 'K', 'A', 'N']);
    }
    if chars_eq(t.as_slice(), info.as_slice()) {
        Rgb { r: 0x56, g: 0x9C, b: 0xD6 }
    } else if chars_eq(t.as_slice(), warn.as_slice()) || chars_eq(t.as_slice(), warning.as_slice()) {
        Rgb { r: 0xFF, g: 0xC6, b: 0x6D }
    } else if chars_eq(t.as_slice(), error.as_slice()) {
        Rgb { r: 0xFF, g: 0x45, b: 0x00 }
    } else if chars_eq(t.as_slice(), vulkan.as_slice()) {
        Rgb { r: 0xBD, g: 0x93, b: 0xF9 }
    } else {
        Rgb { r: 0xBF, g: 0xBD, b: 0xB6 }
    }
}

/// A line of the log view.
pub enum LogLine {
    /// `[tag]` in bold and in the tag's colour, then the rest of the line.
    Tagged { tag: String, color: Rgb, rest: String },
    /// The raw line.
    Plain(String),
}

/// Position of the closing `]` of a line that opens with `[`, or `-1`.
pub open spec fn tag_end(raw: Seq<char>) -> int {
    if raw.len() > 0 && raw[0] == '[' {
        index_of(raw.drop_first(), ']')
    } else {
        -1
    }
}

/// Splits a log line into its `[tag]` and the rest, when it opens with one.
pub fn parse_log(raw: &[char]) -> (r: LogLine)
    ensures
        ({
            let e = tag_end(raw@);
            let rest = raw@.drop_first();
            match r {
                LogLine::Tagged { tag, color, rest: after } => e >= 0 && tag@ == rest.take(e)
                    && color == tag_color_spec(rest.take(e)) && after@ == rest.skip(e + 1),
                LogLine::Plain(s) => e < 0 && s@ == raw@,
            }
        }),
{
    if raw.len() > 0 && raw[0] == '[' {
        let rest = slice_to_vec(raw, 1, raw.len());
        proof {
            assert(rest@ =~= raw@.drop_first());
        }
        let n = rest.len();
        let mut e: usize = 0;
        while e < n && rest[e] != ']'
            invariant
                e <= n,
                n == rest@.len(),
                forall|j: int| 0 <= j < e ==> #[trigger] rest@[j] != ']',
            decreases n - e,
        {
            e = e + 1;
        }
        proof {
            lemma_index_of_props(rest@, ']');
            if e < n {
                assert(rest@[e as int] == ']');
            }
            crate::text::lemma_index_of_exact(rest@, ']', e as int);
        }
        if e < n {
            let tag = slice_to_vec(rest.as_slice(), 0, e);
            let after = slice_to_vec(rest.as_slice(), e + 1, n);
            proof {
                assert(tag@ =~= rest@.take(e as int));
                assert(after@ =~= rest@.skip(e + 1));
            }
            let color = tag_color(tag.as_slice());
            return LogLine::Tagged {
                tag: from_chars(tag.as_slice()),
                color,
                rest: from_chars(after.as_slice()),
            };
        }
    }
    LogLine::Plain(from_chars(raw))
}


/// The level of detail a record `lod␟chunks␟vertices` stands for, if well formed.
pub open spec fn lod_record(rec: Seq<char>) -> Option<WorldLod> {
    let f = splitn_spec(rec, 3, field_sep());
    if f.len() == 3 && parses_unsigned(f[0], u32::MAX as nat) && parses_unsigned(
        f[1],
        usize::MAX as nat,
    ) && parses_unsigned(f[2], usize::MAX as nat) {
        Some(
            WorldLod {
                lod: unsigned_value(f[0]) as u32,
                chunks: unsigned_value(f[1]) as usize,
                vertices: unsigned_value(f[2]) as usize,
            },
        )
    } else {
        None
    }
}

/// The summary of a `[WORLD]` body: its first non-empty record without `␟`.
pub open spec fn world_summary(recs: Seq<Seq<char>>) -> Option<Seq<char>>
    decreases recs.len(),
{
    if recs.len() == 0 {
        None
    } else {
        match world_summary(recs.drop_last()) {
            Some(s) => Some(s),
            None => {
                let r = recs.last();
                if r.len() > 0 && index_of(r, field_sep()) < 0 {
                    Some(r)
                } else {
                    None
                }
            },
        }
    }
}

/// The levels of a `[WORLD]` body: its well-formed records with `␟`, in order.
pub open spec fn world_lods(recs: Seq<Seq<char>>) -> Seq<WorldLod>
    decreases recs.len(),
{
    if recs.len() == 0 {
        Seq::empty()
    } else {
        let prev = world_lods(recs.drop_last());
        let r = recs.last();
        if index_of(r, field_sep()) >= 0 {
            match lod_record(r) {
                Some(l) => prev.push(l),
                None => prev,
            }
        } else {
            prev
        }
    }
}

/// Decodes the body of a `[WORLD]` message: a plain-text summary record, then one record
/// `lod␟chunks␟vertices` per level of detail, records separated by `␞`.
pub fn parse_world_stats(rest: &[char]) -> (r: WorldStats)
    ensures
        ({
            let recs = split_spec(rest@, record_sep());
            &&& match (r.summary, world_summary(recs)) {
                (Some(s), Some(t)) => s@ == t,
                (None, None) => true,
                _ => false,
            }
            &&& r.lods@ == world_lods(recs)
        }),
{
    let recs = split(rest, '\u{1e}');
    let ghost rs = split_spec(rest@, record_sep());
    let mut summary: Option<String> = None;
    let mut lods: Vec<WorldLod> = Vec::new();
    let mut k: usize = 0;
    while k < recs.len()
        invariant
            k <= recs@.len(),
            recs@.len() == rs.len(),
            forall|j: int| 0 <= j < recs@.len() ==> (#[trigger] recs@[j])@ == rs[j],
            match (summary, world_summary(rs.take(k as int))) {
                (Some(s), Some(t)) => s@ == t,
                (None, None) => true,
                _ => false,
            },
            lods@ == world_lods(rs.take(k as int)),
        decreases recs@.len() - k,
    {
        proof {
            assert(rs.take(k + 1).drop_last() =~= rs.take(k as int));
            assert(rs.take(k + 1).last() == recs@[k as int]@);
        }
        let rec = recs[k].as_slice();
        let mut has_sep = false;
        let mut q: usize = 0;
        while q < rec.len()
            invariant
                q <= rec@.len(),
                has_sep == exists|j: int| 0 <= j < q && rec@[j] == field_sep(),
            decreases rec@.len() - q,
        {
            if rec[q] == '\u{1f}' {
                has_sep = true;
            }
            q = q + 1;
        }
        proof {
            lemma_index_of_props(rec@, field_sep());
            if has_sep {
                let j = choose|j: int| 0 <= j < q && rec@[j] == field_sep();
                assert(index_of(rec@, field_sep()) >= 0);
            }
        }
        if has_sep {
            let f = splitn(rec, 3, '\u{1f}');
            if f.len() == 3 {
                let lod = parse_unsigned(f[0].as_slice(), u32::MAX as u128);
                let chunks = parse_unsigned(f[1].as_slice(), usize::MAX as u128);
                let vertices = parse_unsigned(f[2].as_slice(), usize::MAX as u128);
                match (lod, chunks, vertices) {
                    (Some(l), Some(c), Some(v)) => {
                        lods.push(WorldLod { lod: l as u32, chunks: c as usize, vertices: v as usize });
                    },
                    _ => {},
                }
            }
        } else if rec.len() > 0 {
            if summary.is_none() {
                summary = Some(from_chars(rec));
            }
        }
        k = k + 1;
    }
    proof {
        assert(rs.take(k as int) =~= rs);
    }
    WorldStats { summary, lods }
}

pub open spec fn profile_init_prefix() -> Seq<char> {
    seq!['[', 'P', 'R', 'O', 'F', 'I', 'L', 'E', '_', 'I', 'N', 'I', 'T', ']', ' ']
}

pub open spec fn profile_frame_prefix() -> Seq<char> {
    seq!['[', 'P', 'R', 'O', 'F', 'I', 'L', 'E', '_', 'F', 'R', 'A', 'M', 'E', ']', ' ']
}

pub open spec fn profile_gpu_prefix() -> Seq<char> {
    seq!['[', 'P', 'R', 'O', 'F', 'I', 'L', 'E', '_', 'G', 'P', 'U', ']', ' ']
}

pub open spec fn fps_prefix() -> Seq<char> {
    seq!['[', 'F', 'P', 'S', ']', ' ']
}

pub open spec fn state_prefix() -> Seq<char> {
    seq!['[', 'S', 'T', 'A', 'T', 'E', ']', ' ']
}

pub open spec fn config_prefix() -> Seq<char> {
    seq!['[', 'C', 'O', 'N', 'F', 'I', 'G', ']', ' ']
}

pub open spec fn world_prefix() -> Seq<char> {
    seq!['[', 'W', 'O', 'R', 'L', 'D', ']', ' ']
}

pub open spec fn mode_key() -> Seq<char> {
    seq!['m', 'o', 'd', 'e', '=']
}

pub open spec fn profiling_key() -> Seq<char> {
    seq!['p', 'r', 'o', 'f', 'i', 'l', 'i', 'n', 'g', '=']
}

pub open spec fn enabled_word() -> Seq<char> {
    seq!['e', 'n', 'a', 'b', 'l', 'e', 'd']
}

/// Build mode and profiling switch of a `[CONFIG]` body: the last `mode=…` and the last
/// `profiling=…` among its words win; profiling is on only for `profiling=enabled`.
pub open spec fn config_of(tokens: Seq<Seq<char>>) -> (Seq<char>, bool)
    decreases tokens.len(),
{
    if tokens.len() == 0 {
        (Seq::empty(), false)
    } else {
        let prev = config_of(tokens.drop_last());
        let t = tokens.last();
        if starts_with(t, mode_key()) {
            (t.skip(5), prev.1)
        } else if starts_with(t, profiling_key()) {
            (prev.0, t.skip(10) == enabled_word())
        } else {
            prev
        }
    }
}

/// A message from the engine, decoded.
pub enum ParsedMessage {
    /// A line for the log view.
    Log(LogLine),
    /// A frame-rate reading, as sent: the caller reads it as a float; a reading that is
    /// not one makes the message a `Log` of the raw line.
    Fps(String),
    /// The engine's state.
    State(String),
    /// Build configuration.
    Config { mode: String, profiling: bool },
    /// The whole initialisation tree, in display order.
    ProfileInit(Vec<ProfileNode>),
    /// The tree of a sampled frame (same format), sent periodically.
    ProfileFrame(Vec<ProfileNode>),
    /// The tree of GPU timings, sent regularly.
    ProfileGpu(Vec<ProfileNode>),
    /// Statistics of the generated terrain.
    World(WorldStats),
}

/// `nodes` are the nodes decoded from `body`.
pub open spec fn nodes_of(nodes: Seq<ProfileNode>, body: Seq<char>) -> bool {
    &&& nodes.len() == profile_nodes_spec(body).len()
    &&& forall|i: int| 0 <= i < nodes.len() ==> node_is(#[trigger] nodes[i], profile_nodes_spec(body)[i])
}

/// `line` is the log line `raw` decodes to.
pub open spec fn log_line_of(line: LogLine, raw: Seq<char>) -> bool {
    let e = tag_end(raw);
    let rest = raw.drop_first();
    match line {
        LogLine::Tagged { tag, color, rest: after } => e >= 0 && tag@ == rest.take(e) && color
            == tag_color_spec(rest.take(e)) && after@ == rest.skip(e + 1),
        LogLine::Plain(s) => e < 0 && s@ == raw,
    }
}

/// `stats` are the terrain statistics decoded from `body`.
pub open spec fn world_of(stats: WorldStats, body: Seq<char>) -> bool {
    let recs = split_spec(body, record_sep());
    &&& match (stats.summary, world_summary(recs)) {
        (Some(s), Some(t)) => s@ == t,
        (None, None) => true,
        _ => false,
    }
    &&& stats.lods@ == world_lods(recs)
}

fn prefix_chars(which: u8) -> (r: Vec<char>)
    ensures
        which == 0 ==> r@ == profile_init_prefix(),
        which == 1 ==> r@ == profile_frame_prefix(),
        which == 2 ==> r@ == profile_gpu_prefix(),
        which == 3 ==> r@ == fps_prefix(),
        which == 4 ==> r@ == state_prefix(),
        which == 5 ==> r@ == config_prefix(),
        which == 6 ==> r@ == world_prefix(),
        which == 7 ==> r@ == mode_key(),
        which == 8 ==> r@ == profiling_key(),
        which == 9 ==> r@ == enabled_word(),
{
    let r = if which == 0 {
        vec!['[', 'P', 'R', 'O', 'F', 'I', 'L', 'E', '_', 'I', 'N', 'I', 'T', ']', ' ']
    } else if which == 1 {
        vec!['[', 'P', 'R', 'O', 'F', 'I', 'L', 'E', '_', 'F', 'R', 'A', 'M', 'E', ']', ' ']
    } else if which == 2 {
        vec!['[', 'P', 'R', 'O', 'F', 'I', 'L', 'E', '_', 'G', 'P', 'U', ']', ' ']
    } else if which == 3 {
        vec!['[', 'F', 'P', 'S', ']', ' ']
    } else if which == 4 {
        vec!['[', 'S', 'T', 'A', 'T', 'E', ']', ' ']
    } else if which == 5 {
        vec!['[', 'C', 'O', 'N', 'F', 'I', 'G', ']', ' ']
    } else if which == 6 {
        vec!['[', 'W', 'O', 'R', 'L', 'D', ']', ' ']
    } else if which == 7 {
        vec!['m', 'o', 'd', 'e', '=']
    } else if which == 8 {
        vec!['p', 'r', 'o', 'f', 'i', 'l', 'i', 'n', 'g', '=']
    } else {
        vec!['e', 'n', 'a', 'b', 'l', 'e', 'd']
    };
    proof {
        assert(which == 0 ==> r@ =~= profile_init_prefix());
        assert(which == 1 ==> r@ =~= profile_frame_prefix());
        assert(which == 2 ==> r@ =~= profile_gpu_prefix());
        assert(which == 3 ==> r@ =~= fps_prefix());
        assert(which == 4 ==> r@ =~= state_prefix());
        assert(which == 5 ==> r@ =~= config_prefix());
        assert(which == 6 ==> r@ =~= world_prefix());
        assert(which == 7 ==> r@ =~= mode_key());
        assert(which == 8 ==> r@ =~= profiling_key());
        assert(which == 9 ==> r@ =~= enabled_word());
    }
    r
}

/// Decodes a `[CONFIG]` body.
fn parse_config(rest: &[char]) -> (r: (String, bool))
    ensures
        r.0@ == config_of(words(rest@)).0,
        r.1 == config_of(words(rest@)).1,
{
    let toks = split_whitespace(rest);
    let ghost ts = words(rest@);
    let mode_k = prefix_chars(7);
    let prof_k = prefix_chars(8);
    let enabled = prefix_chars(9);
    let mut mode: Vec<char> = Vec::new();
    let mut profiling = false;
    let mut k: usize = 0;
    while k < toks.len()
        invariant
            k <= toks@.len(),
            toks@.len() == ts.len(),
            forall|j: int| 0 <= j < toks@.len() ==> (#[trigger] toks@[j])@ == ts[j],
            mode_k@ == mode_key(),
            prof_k@ == profiling_key(),
            enabled@ == enabled_word(),
            mode@ == config_of(ts.take(k as int)).0,
            profiling == config_of(ts.take(k as int)).1,
        decreases toks@.len() - k,
    {
        proof {
            assert(ts.take(k + 1).drop_last() =~= ts.take(k as int));
            assert(ts.take(k + 1).last() == toks@[k as int]@);
        }
        let tok = toks[k].as_slice();
        match strip_prefix(tok, mode_k.as_slice()) {
            Some(v) => {
                mode = v;
            },
            None => match strip_prefix(tok, prof_k.as_slice()) {
                Some(v) => {
                    profiling = chars_equal(v.as_slice(), enabled.as_slice());
                },
                None => {},
            },
        }
        k = k + 1;
    }
    proof {
        assert(ts.take(k as int) =~= ts);
    }
    (from_chars(mode.as_slice()), profiling)
}

/// `r` is what the message `raw` decodes to. The prefixes are tried in this order:
/// `[PROFILE_INIT] `, `[PROFILE_FRAME] `, `[PROFILE_GPU] `, `[FPS] `, `[STATE] `,
/// `[CONFIG] `, `[WORLD] `; anything else is a log line.
pub open spec fn parsed_as(r: ParsedMessage, raw: Seq<char>) -> bool {
    if starts_with(raw, profile_init_prefix()) {
        r matches ParsedMessage::ProfileInit(n) && nodes_of(n@, raw.skip(15))
    } else if starts_with(raw, profile_frame_prefix()) {
        r matches ParsedMessage::ProfileFrame(n) && nodes_of(n@, raw.skip(16))
    } else if starts_with(raw, profile_gpu_prefix()) {
        r matches ParsedMessage::ProfileGpu(n) && nodes_of(n@, raw.skip(14))
    } else if starts_with(raw, fps_prefix()) {
        r matches ParsedMessage::Fps(t) && t@ == trim_spec(raw.skip(6))
    } else if starts_with(raw, state_prefix()) {
        r matches ParsedMessage::State(t) && t@ == trim_spec(raw.skip(8))
    } else if starts_with(raw, config_prefix()) {
        r matches ParsedMessage::Config { mode, profiling } && mode@ == config_of(
            words(raw.skip(9)),
        ).0 && profiling == config_of(words(raw.skip(9))).1
    } else if starts_with(raw, world_prefix()) {
        r matches ParsedMessage::World(w) && world_of(w, raw.skip(8))
    } else {
        r matches ParsedMessage::Log(l) && log_line_of(l, raw)
    }
}

/// Decodes a message from the engine.
pub fn parse(raw: String) -> (r: ParsedMessage)
    ensures
        parsed_as(r, raw@),
{
    let s = to_chars(raw.as_str());
    let p = prefix_chars(0);
    if let Some(rest) = strip_prefix(s.as_slice(), p.as_slice()) {
        return ParsedMessage::ProfileInit(parse_profile_nodes(rest.as_slice()));
    }
    let p = prefix_chars(1);
    if let Some(rest) = strip_prefix(s.as_slice(), p.as_slice()) {
        return ParsedMessage::ProfileFrame(parse_profile_nodes(rest.as_slice()));
    }
    let p = prefix_chars(2);
    if let Some(rest) = strip_prefix(s.as_slice(), p.as_slice()) {
        return ParsedMessage::ProfileGpu(parse_profile_nodes(rest.as_slice()));
    }
    let p = prefix_chars(3);
    if let Some(rest) = strip_prefix(s.as_slice(), p.as_slice()) {
        let t = trim(rest.as_slice());
        return ParsedMessage::Fps(from_chars(t.as_slice()));
    }
    let p = prefix_chars(4);
    if let Some(rest) = strip_prefix(s.as_slice(), p.as_slice()) {
        let t = trim(rest.as_slice());
        return ParsedMessage::State(from_chars(t.as_slice()));
    }
    let p = prefix_chars(5);
    if let Some(rest) = strip_prefix(s.as_slice(), p.as_slice()) {
        let (mode, profiling) = parse_config(rest.as_slice());
        return ParsedMessage::Config { mode, profiling };
    }
    let p = prefix_chars(6);
    if let Some(rest) = strip_prefix(s.as_slice(), p.as_slice()) {
        return ParsedMessage::World(parse_world_stats(rest.as_slice()));
    }
    ParsedMessage::Log(parse_log(s.as_slice()))
}

} // verus!
