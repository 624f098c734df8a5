//! The "world" tab of the monitor: statistics of the generated terrain, one line per
//! level of detail.
use vstd::prelude::*;
use crate::log_parser::{WorldLod, WorldStats};
use crate::text::{
    decimal, from_chars, pad_left, pad_right, push_all, push_padded_left, push_padded_right,
    spaces, to_chars, to_decimal,
};

verus! {

/// Decimal digits grouped by three from the right, groups separated by a space.
pub open spec fn group_thousands(d: Seq<char>) -> Seq<char>
    decreases d.len(),
{
    if d.len() <= 3 {
        d
    } else {
        group_thousands(d.take(d.len() - 3)) + seq![' '] + d.skip(d.len() - 3)
    }
}

fn push_grouped(d: &[char], hi: usize, out: &mut Vec<char>)
    requires
        hi <= d@.len(),
    ensures
        final(out)@ == old(out)@ + group_thousands(d@.take(hi as int)),
    decreases hi,
{
    let ghost t = d@.take(hi as int);
    if hi <= 3 {
        let mut k: usize = 0;
        while k < hi
            invariant
                k <= hi <= d@.len(),
                out@ == old(out)@ + d@.take(k as int),
            decreases hi - k,
        {
            out.push(d[k]);
            k = k + 1;
            proof {
                assert(out@ =~= old(out)@ + d@.take(k as int));
            }
        }
        proof {
            assert(d@.take(k as int) =~= t);
        }
    } else {
        push_grouped(d, hi - 3, out);
        out.push(' ');
        out.push(d[hi - 3]);
        out.push(d[hi - 2]);
        out.push(d[hi - 1]);
        proof {
            assert(t.take(t.len() - 3) =~= d@.take(hi - 3));
            assert(t.skip(t.len() - 3) =~= seq![d@[hi - 3], d@[hi - 2], d@[hi - 1]]);
            assert(out@ =~= old(out)@ + group_thousands(t));
        }
    }
}

/// Thousands separated by a space: `1 234 567`.
pub fn fmt_int(n: usize) -> (r: String)
    ensures
        r@ == group_thousands(decimal(n as nat)),
{
    let d = to_decimal(n as u128);
    let mut out: Vec<char> = Vec::new();
    push_grouped(d.as_slice(), d.len(), &mut out);
    proof {
        assert(d@.take(d@.len() as int) =~= d@);
        assert(out@ =~= group_thousands(decimal(n as nat)));
    }
    from_chars(out.as_slice())
}

/// One line of the level-of-detail table: same widths for the header and the data,
/// values aligned to the right.
pub open spec fn row_spec(
    lod: Seq<char>,
    step: Seq<char>,
    chunks: Seq<char>,
    avg: Seq<char>,
    vertices: Seq<char>,
) -> Seq<char> {
    spaces(2) + pad_right(lod, 6) + pad_left(step, 4) + pad_left(chunks, 12) + pad_left(avg, 16)
        + pad_left(vertices, 16)
}

/// One line of the level-of-detail table.
pub fn row(lod: &str, step: &str, chunks: &str, avg: &str, vertices: &str) -> (r: String)
    ensures
        r@ == row_spec(lod@, step@, chunks@, avg@, vertices@),
{
    let mut out: Vec<char> = Vec::new();
    out.push(' ');
    out.push(' ');
    proof {
        assert(out@ =~= spaces(2));
    }
    let c = to_chars(lod);
    push_padded_right(&mut out, c.as_slice(), 6);
    let c = to_chars(step);
    push_padded_left(&mut out, c.as_slice(), 4);
    let c = to_chars(chunks);
    push_padded_left(&mut out, c.as_slice(), 12);
    let c = to_chars(avg);
    push_padded_left(&mut out, c.as_slice(), 16);
    let c = to_chars(vertices);
    push_padded_left(&mut out, c.as_slice(), 16);
    from_chars(out.as_slice())
}

/// Vertices per chunk, rounded down; 0 without chunk.
pub open spec fn average_spec(vertices: nat, chunks: nat) -> nat {
    if chunks > 0 {
        vertices / chunks
    } else {
        0
    }
}

/// Vertices per chunk, rounded down; 0 without chunk.
pub fn average_per_chunk(vertices: usize, chunks: usize) -> (r: usize)
    ensures
        r == average_spec(vertices as nat, chunks as nat),
        chunks > 0 ==> r * chunks <= vertices < (r + 1) * chunks,
        chunks == 0 ==> r == 0,
{
    if chunks > 0 {
        let r = vertices / chunks;
        assert(r * chunks <= vertices < (r + 1) * chunks) by (nonlinear_arith)
            requires
                chunks > 0,
                r == vertices / chunks,
        ;
        r
    } else {
        0
    }
}

/// The line of a level in the table: `LOD{l}`, its step `2^l`, its chunks, its
/// vertices per chunk and its vertices.
pub open spec fn lod_row_spec(l: WorldLod) -> Seq<char> {
    row_spec(
        seq!['L', 'O', 'D'] + decimal(l.lod as nat),
        decimal(vstd::arithmetic::power2::pow2(l.lod as nat)),
        group_thousands(decimal(l.chunks as nat)),
        group_thousands(decimal(average_spec(l.vertices as nat, l.chunks as nat))),
        group_thousands(decimal(l.vertices as nat)),
    )
}

/// The line of a level in the table (the step `1 << l` needs `l < 32`).
pub fn lod_row(l: &WorldLod) -> (r: String)
    requires
        l.lod < 32,
    ensures
        r@ == lod_row_spec(*l),
{
    let mut name: Vec<char> = Vec::new();
    name.push('L');
    name.push('O');
    name.push('D');
    let d = to_decimal(l.lod as u128);
    push_all(&mut name, d.as_slice());
    assert(name@ =~= seq!['L', 'O', 'D'] + decimal(l.lod as nat));
    let name = from_chars(name.as_slice());
    proof {
        vstd::bits::lemma_u32_pow2_no_overflow(l.lod as nat);
        vstd::bits::lemma_u32_shl_is_mul(1, l.lod);
    }
    let step = 1u32 << l.lod;
    let step_text = from_chars(to_decimal(step as u128).as_slice());
    let chunks = fmt_int(l.chunks);
    let avg = fmt_int(average_per_chunk(l.vertices, l.chunks));
    let vertices = fmt_int(l.vertices);
    row(name.as_str(), step_text.as_str(), chunks.as_str(), avg.as_str(), vertices.as_str())
}

/// Cells of the proportion bars of the level table in a box `width` characters wide:
/// none under 70, otherwise a quarter of the width within `[8, 32]`, cut to what is
/// left past the table.
pub fn lods_bar_cells(width: usize) -> (r: usize)
    ensures
        r == (if width >= 70 {
            let c: int = if width / 4 < 8 {
                8
            } else if width / 4 > 32 {
                32
            } else {
                (width / 4) as int
            };
            if c < width - 62 {
                c
            } else {
                width - 62
            }
        } else {
            0
        }),
{
    if width >= 70 {
        let q = width / 4;
        let c = if q < 8 {
            8
        } else if q > 32 {
            32
        } else {
            q
        };
        if c < width - 62 {
            c
        } else {
            width - 62
        }
    } else {
        0
    }
}

/// Sum of the chunk counts of `lods`.
pub open spec fn sum_chunks(lods: Seq<WorldLod>) -> int
    decreases lods.len(),
{
    if lods.len() == 0 {
        0
    } else {
        sum_chunks(lods.drop_last()) + lods.last().chunks
    }
}

/// Sum of the vertex counts of `lods`.
pub open spec fn sum_vertices(lods: Seq<WorldLod>) -> int
    decreases lods.len(),
{
    if lods.len() == 0 {
        0
    } else {
        sum_vertices(lods.drop_last()) + lods.last().vertices
    }
}

/// State of the tab: the last batch of statistics received (empty until the scene has
/// generated its terrain).
pub struct WorldState {
    pub summary: Option<String>,
    pub lods: Vec<WorldLod>,
}

impl WorldState {
    /// No statistics yet.
    pub fn new() -> (r: WorldState)
        ensures
            r.summary is None,
            r.lods@.len() == 0,
    {
        WorldState { summary: None, lods: Vec::new() }
    }

    /// Replaces the statistics with the batch received: a regenerated terrain simply
    /// overwrites the former one.
    pub fn load(&mut self, stats: WorldStats)
        ensures
            final(self).summary == stats.summary,
            final(self).lods@ == stats.lods@,
    {
        self.summary = stats.summary;
        self.lods = stats.lods;
    }

    /// Chunks over all levels.
    pub fn total_chunks(&self) -> (r: usize)
        requires
            sum_chunks(self.lods@) <= usize::MAX,
        ensures
            r == sum_chunks(self.lods@),
    {
        let mut sum: usize = 0;
        let mut i: usize = 0;
        while i < self.lods.len()
            invariant
                i <= self.lods@.len(),
                sum == sum_chunks(self.lods@.take(i as int)),
                sum_chunks(self.lods@) <= usize::MAX,
            decreases self.lods@.len() - i,
        {
            proof {
                assert(self.lods@.take(i + 1).drop_last() =~= self.lods@.take(i as int));
                lemma_sum_chunks_prefix(self.lods@, i + 1);
            }
            sum = sum + self.lods[i].chunks;
            i = i + 1;
        }
        proof {
            assert(self.lods@.take(i as int) =~= self.lods@);
        }
        sum
    }

    /// Vertices over all levels.
    pub fn total_vertices(&self) -> (r: usize)
        requires
            sum_vertices(self.lods@) <= usize::MAX,
        ensures
            r == sum_vertices(self.lods@),
    {
        let mut sum: usize = 0;
        let mut i: usize = 0;
        while i < self.lods.len()
            invariant
                i <= self.lods@.len(),
                sum == sum_vertices(self.lods@.take(i as int)),
                sum_vertices(self.lods@) <= usize::MAX,
            decreases self.lods@.len() - i,
        {
            proof {
                assert(self.lods@.take(i + 1).drop_last() =~= self.lods@.take(i as int));
                lemma_sum_vertices_prefix(self.lods@, i + 1);
            }
            sum = sum + self.lods[i].vertices;
            i = i + 1;
        }
        proof {
            assert(self.lods@.take(i as int) =~= self.lods@);
        }
        sum
    }

    /// Whether both totals fit in a `usize`, that is, whether `total_chunks` and
    /// `total_vertices` may be called.
    pub fn totals_fit(&self) -> (r: bool)
        ensures
            r == (sum_chunks(self.lods@) <= usize::MAX && sum_vertices(self.lods@) <= usize::MAX),
    {
        let mut c: u128 = 0;
        let mut v: u128 = 0;
        let mut i: usize = 0;
        while i < self.lods.len()
            invariant
                i <= self.lods@.len(),
                c == sum_chunks(self.lods@.take(i as int)),
                v == sum_vertices(self.lods@.take(i as int)),
                c <= usize::MAX,
                v <= usize::MAX,
            decreases self.lods@.len() - i,
        {
            proof {
                assert(self.lods@.take(i + 1).drop_last() =~= self.lods@.take(i as int));
            }
            c = c + self.lods[i].chunks as u128;
            v = v + self.lods[i].vertices as u128;
            if c > usize::MAX as u128 || v > usize::MAX as u128 {
                proof {
                    lemma_sum_chunks_prefix(self.lods@, i + 1);
                    lemma_sum_vertices_prefix(self.lods@, i + 1);
                }
                return false;
            }
            i = i + 1;
        }
        proof {
            assert(self.lods@.take(i as int) =~= self.lods@);
        }
        true
    }
}

proof fn lemma_sum_chunks_prefix(s: Seq<WorldLod>, i: int)
    requires
        0 <= i <= s.len(),
    ensures
        sum_chunks(s.take(i)) <= sum_chunks(s),
    decreases s.len() - i,
{
    if i < s.len() {
        lemma_sum_chunks_prefix(s, i + 1);
        assert(s.take(i + 1).drop_last() =~= s.take(i));
    } else {
        assert(s.take(i) =~= s);
    }
}

proof fn lemma_sum_vertices_prefix(s: Seq<WorldLod>, i: int)
    requires
        0 <= i <= s.len(),
    ensures
        sum_vertices(s.take(i)) <= sum_vertices(s),
    decreases s.len() - i,
{
    if i < s.len() {
        lemma_sum_vertices_prefix(s, i + 1);
        assert(s.take(i + 1).drop_last() =~= s.take(i));
    } else {
        assert(s.take(i) =~= s);
    }
}

} // verus!
