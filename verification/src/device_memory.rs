use vstd::prelude::*;
use vstd::arithmetic::power2::pow2;
use vstd::bits::{low_bits_mask, lemma_u64_low_bits_mask_is_mod, lemma_u64_pow2_no_overflow};

verus! {

/// `a` is a power of two that fits in a `u64`.
pub open spec fn is_pow2(a: u64) -> bool {
    exists|k: nat| k < 64 && a as int == pow2(k)
}

/// Smallest multiple of `a` that is at least `x`.
pub open spec fn align_up_spec(x: int, a: int) -> int {
    ((x + a - 1) / a) * a
}

proof fn lemma_and_not(y: u64, m: u64)
    ensures
        y & !m == y - (y & m),
{
    assert(y & !m == y - (y & m)) by (bit_vector);
}

/// Rounds `x` up to the next multiple of the power of two `a`.
pub fn align_up(x: u64, a: u64) -> (r: u64)
    requires
        is_pow2(a),
        x + a - 1 <= u64::MAX,
    ensures
        r == align_up_spec(x as int, a as int),
        r % a == 0,
        x <= r < x + a,
{
    let ghost k = choose|k: nat| k < 64 && a as int == pow2(k);
    proof {
        lemma_u64_pow2_no_overflow(k);
    }
    let y = x + (a - 1);
    proof {
        lemma_u64_low_bits_mask_is_mod(y, k);
        lemma_and_not(y, (a - 1) as u64);
        assert(low_bits_mask(k) as u64 == (a - 1) as u64);
        assert(y - y % a == (y / a) * a) by (nonlinear_arith) requires a > 0;
        let (yi, ai) = (y as int, a as int);
        assert(((yi / ai) * ai) % ai == 0 && yi - ai < (yi / ai) * ai <= yi) by (nonlinear_arith)
            requires
                ai > 0,
                yi >= 0,
        ;
    }
    y & !(a - 1)
}

} // verus!

verus! {

#[verifier::external_type_specification]
#[verifier::external_body]
pub struct ExDeviceMemory(ash::vk::DeviceMemory);

/// A free interval `[start, end)` of a memory block.
#[derive(Clone, Copy)]
pub struct FreeRange {
    pub start: u64,
    pub end: u64,
}

/// Length of a range, as an integer.
pub open spec fn range_len(r: FreeRange) -> int {
    r.end - r.start
}

/// The free list is sorted, its ranges are non-empty, lie inside `[0, size)`, and two
/// ranges never touch (neighbours are always merged).
pub open spec fn ranges_wf(s: Seq<FreeRange>, size: int) -> bool {
    &&& forall|i: int| 0 <= i < s.len() ==> (#[trigger] s[i]).start < s[i].end <= size
    &&& forall|i: int, j: int| 0 <= i < j < s.len() ==> #[trigger] s[i].end < #[trigger] s[j].start
}

/// Address `a` is covered by one of the ranges.
pub open spec fn in_ranges(s: Seq<FreeRange>, a: int) -> bool {
    exists|i: int| 0 <= i < s.len() && #[trigger] s[i].start <= a && a < s[i].end
}

/// Sum of the lengths of the ranges.
pub open spec fn total(s: Seq<FreeRange>) -> int
    decreases s.len(),
{
    if s.len() == 0 {
        0
    } else {
        total(s.drop_last()) + range_len(s.last())
    }
}

/// A request of `size` bytes aligned on `align` fits in the hole `r`.
pub open spec fn fits(r: FreeRange, size: int, align: int) -> bool {
    align_up_spec(r.start as int, align) + size <= r.end
}

/// `i` is the first hole of `s` that can serve the request.
pub open spec fn first_fit_at(s: Seq<FreeRange>, i: int, size: int, align: int) -> bool {
    &&& 0 <= i < s.len()
    &&& fits(s[i], size, align)
    &&& forall|j: int| 0 <= j < i ==> !fits(#[trigger] s[j], size, align)
}

/// The free list after `[start, start + size)` is cut out of the hole `s[i]`.
pub open spec fn carve(s: Seq<FreeRange>, i: int, start: int, size: int) -> Seq<FreeRange> {
    let hole = s[i];
    let front = if start == hole.start {
        Seq::<FreeRange>::empty()
    } else {
        seq![FreeRange { start: hole.start, end: start as u64 }]
    };
    let back = if start + size < hole.end {
        seq![FreeRange { start: (start + size) as u64, end: hole.end }]
    } else {
        Seq::<FreeRange>::empty()
    };
    s.take(i) + front + back + s.skip(i + 1)
}

proof fn lemma_pow2_positive(a: u64)
    requires
        is_pow2(a),
    ensures
        a > 0,
{
    let k = choose|k: nat| k < 64 && a as int == pow2(k);
    vstd::arithmetic::power2::lemma_pow2_pos(k);
}

proof fn lemma_align_up_props(x: int, a: int)
    requires
        x >= 0,
        a > 0,
    ensures
        x <= align_up_spec(x, a) < x + a,
        align_up_spec(x, a) % a == 0,
{
    let q = (x + a - 1) / a;
    let r = (x + a - 1) % a;
    assert(x + a - 1 == q * a + r && 0 <= r < a) by (nonlinear_arith)
        requires a > 0, q == (x + a - 1) / a, r == (x + a - 1) % a;
    assert((q * a) % a == 0) by (nonlinear_arith) requires a > 0;
}

proof fn lemma_total_concat(a: Seq<FreeRange>, b: Seq<FreeRange>)
    ensures
        total(a + b) == total(a) + total(b),
    decreases b.len(),
{
    if b.len() == 0 {
        assert(a + b =~= a);
    } else {
        assert((a + b).drop_last() =~= a + b.drop_last());
        lemma_total_concat(a, b.drop_last());
    }
}

proof fn lemma_total_single(r: FreeRange)
    ensures
        total(seq![r]) == range_len(r),
{
    assert(seq![r].drop_last() =~= Seq::<FreeRange>::empty());
    assert(total(Seq::<FreeRange>::empty()) == 0);
    assert(seq![r].last() == r);
}

proof fn lemma_total_split(s: Seq<FreeRange>, i: int)
    requires
        0 <= i < s.len(),
    ensures
        total(s) == total(s.take(i)) + range_len(s[i]) + total(s.skip(i + 1)),
{
    assert(s =~= s.take(i) + seq![s[i]] + s.skip(i + 1));
    lemma_total_concat(s.take(i) + seq![s[i]], s.skip(i + 1));
    lemma_total_concat(s.take(i), seq![s[i]]);
    lemma_total_single(s[i]);
}

proof fn lemma_in_ranges_concat(p: Seq<FreeRange>, q: Seq<FreeRange>, a: int)
    ensures
        in_ranges(p + q, a) <==> in_ranges(p, a) || in_ranges(q, a),
{
    if in_ranges(p + q, a) {
        let k = choose|k: int| 0 <= k < (p + q).len() && #[trigger] (p + q)[k].start <= a && a < (p + q)[k].end;
        if k < p.len() {
            assert(p[k] == (p + q)[k]);
        } else {
            assert(q[k - p.len()] == (p + q)[k]);
        }
    }
    if in_ranges(p, a) {
        let k = choose|k: int| 0 <= k < p.len() && #[trigger] p[k].start <= a && a < p[k].end;
        assert((p + q)[k] == p[k]);
    }
    if in_ranges(q, a) {
        let k = choose|k: int| 0 <= k < q.len() && #[trigger] q[k].start <= a && a < q[k].end;
        assert((p + q)[k + p.len()] == q[k]);
    }
}

proof fn lemma_in_ranges_single(r: FreeRange, a: int)
    ensures
        in_ranges(seq![r], a) <==> r.start <= a < r.end,
{
    if r.start <= a < r.end {
        assert(seq![r][0] == r);
    }
}

proof fn lemma_in_ranges_split(s: Seq<FreeRange>, i: int, a: int)
    requires
        0 <= i < s.len(),
    ensures
        in_ranges(s, a) <==> in_ranges(s.take(i), a) || (s[i].start <= a < s[i].end)
            || in_ranges(s.skip(i + 1), a),
{
    assert(s =~= s.take(i) + seq![s[i]] + s.skip(i + 1));
    lemma_in_ranges_concat(s.take(i) + seq![s[i]], s.skip(i + 1), a);
    lemma_in_ranges_concat(s.take(i), seq![s[i]], a);
    lemma_in_ranges_single(s[i], a);
}

/// Total of a well-formed free list never exceeds the block size.
proof fn lemma_total_bounded(s: Seq<FreeRange>, size: int)
    requires
        ranges_wf(s, size),
        size >= 0,
    ensures
        0 <= total(s),
        s.len() > 0 ==> total(s) <= s.last().end,
        total(s) <= size,
    decreases s.len(),
{
    if s.len() > 0 {
        let d = s.drop_last();
        assert(ranges_wf(d, size));
        lemma_total_bounded(d, size);
        assert(s[s.len() - 1].end <= size);
        if d.len() > 0 {
            assert(d.last() == s[s.len() - 2]);
            assert(s[s.len() - 2].end < s[s.len() - 1].start);
        }
    }
}

/// Cutting `[start, start + size)` out of a hole keeps the list well formed, removes
/// exactly those addresses and exactly `size` bytes.
proof fn lemma_carve(s: Seq<FreeRange>, bsize: int, i: int, start: int, size: int)
    requires
        ranges_wf(s, bsize),
        0 <= i < s.len(),
        s[i].start <= start,
        size > 0,
        start + size <= s[i].end,
    ensures
        ranges_wf(carve(s, i, start, size), bsize),
        forall|a: int|
            in_ranges(carve(s, i, start, size), a) <==> (in_ranges(s, a) && !(start <= a
                < start + size)),
        total(carve(s, i, start, size)) == total(s) - size,
{
    let hole = s[i];
    let front = if start == hole.start {
        Seq::<FreeRange>::empty()
    } else {
        seq![FreeRange { start: hole.start, end: start as u64 }]
    };
    let back = if start + size < hole.end {
        seq![FreeRange { start: (start + size) as u64, end: hole.end }]
    } else {
        Seq::<FreeRange>::empty()
    };
    let pre = s.take(i);
    let post = s.skip(i + 1);
    let c = carve(s, i, start, size);
    assert(c == pre + front + back + post);
    // total
    lemma_total_split(s, i);
    lemma_total_concat(pre + front + back, post);
    lemma_total_concat(pre + front, back);
    lemma_total_concat(pre, front);
    if start != hole.start {
        lemma_total_single(front[0]);
    } else {
        assert(total(front) == 0);
    }
    if start + size < hole.end {
        lemma_total_single(back[0]);
    } else {
        assert(total(back) == 0);
    }
    // membership
    assert forall|a: int|
        in_ranges(c, a) <==> (in_ranges(s, a) && !(start <= a < start + size)) by {
        lemma_in_ranges_concat(pre + front + back, post, a);
        lemma_in_ranges_concat(pre + front, back, a);
        lemma_in_ranges_concat(pre, front, a);
        lemma_in_ranges_split(s, i, a);
        if start != hole.start {
            lemma_in_ranges_single(front[0], a);
        }
        if start + size < hole.end {
            lemma_in_ranges_single(back[0], a);
        }
        if in_ranges(pre, a) {
            let k = choose|k: int| 0 <= k < pre.len() && #[trigger] pre[k].start <= a && a < pre[k].end;
            assert(s[k] == pre[k]);
            assert(s[k].end < s[i].start);
        }
        if in_ranges(post, a) {
            let k = choose|k: int| 0 <= k < post.len() && #[trigger] post[k].start <= a && a < post[k].end;
            assert(s[k + i + 1] == post[k]);
            assert(s[i].end < s[k + i + 1].start);
        }
    }
    // well-formedness
    assert forall|k: int| 0 <= k < c.len() implies #[trigger] c[k].start < c[k].end <= bsize by {
        if k < i {
            assert(c[k] == s[k]);
        } else if k >= c.len() - post.len() {
            assert(c[k] == s[k - c.len() + post.len() + i + 1]);
        }
    }
    assert forall|j: int, k: int| 0 <= j < k < c.len() implies #[trigger] c[j].end < #[trigger] c[k].start by {
        let np = c.len() - post.len();
        let sj = if j < i { j } else if j >= np { j - np + i + 1 } else { i };
        let sk = if k < i { k } else if k >= np { k - np + i + 1 } else { i };
        if j < i {
            assert(c[j] == s[j]);
        } else if j >= np {
            assert(c[j] == s[sj]);
        }
        if k < i {
            assert(c[k] == s[k]);
        } else if k >= np {
            assert(c[k] == s[sk]);
        }
        if sj < sk {
            assert(s[sj].end < s[sk].start);
        }
    }
}

} // verus!

verus! {

/// `i` is where a range starting at `offset` goes: every earlier range starts before it,
/// every later one at or after it.
pub open spec fn insert_pos(s: Seq<FreeRange>, i: int, offset: int) -> bool {
    &&& 0 <= i <= s.len()
    &&& forall|j: int| 0 <= j < i ==> (#[trigger] s[j]).start < offset
    &&& forall|j: int| i <= j < s.len() ==> (#[trigger] s[j]).start >= offset
}

/// The free list after the range `r` is inserted at position `i` and merged with the
/// neighbours it touches.
pub open spec fn merge_in(s: Seq<FreeRange>, i: int, r: FreeRange) -> Seq<FreeRange> {
    let mp = i > 0 && s[i - 1].end == r.start;
    let mn = i < s.len() && r.end == s[i].start;
    let lo = if mp { s[i - 1].start } else { r.start };
    let hi = if mn { s[i].end } else { r.end };
    let a = if mp { i - 1 } else { i };
    let b = if mn { i + 1 } else { i };
    s.take(a) + seq![FreeRange { start: lo, end: hi }] + s.skip(b)
}

proof fn lemma_total_pair(x: FreeRange, y: FreeRange)
    ensures
        total(seq![x, y]) == range_len(x) + range_len(y),
{
    assert(seq![x, y] =~= seq![x] + seq![y]);
    lemma_total_concat(seq![x], seq![y]);
    lemma_total_single(x);
    lemma_total_single(y);
}

/// The ranges around the insertion point do not overlap the range given back.
proof fn lemma_merge_neighbours(s: Seq<FreeRange>, bsize: int, i: int, r: FreeRange)
    requires
        ranges_wf(s, bsize),
        insert_pos(s, i, r.start as int),
        r.start < r.end,
        forall|a: int| r.start <= a < r.end ==> !in_ranges(s, a),
    ensures
        i > 0 ==> s[i - 1].end <= r.start,
        i < s.len() ==> r.end <= s[i].start,
{
    if i > 0 {
        assert(s[i - 1].start < r.start);
        if s[i - 1].end > r.start {
            assert(in_ranges(s, r.start as int));
        }
    }
    if i < s.len() {
        assert(s[i].start >= r.start);
        if s[i].start < r.end {
            assert(in_ranges(s, s[i].start as int));
        }
    }
}

/// `merge_in` spelled out as prefix, merged range, suffix.
pub open spec fn merge_lo(s: Seq<FreeRange>, i: int, r: FreeRange) -> u64 {
    if i > 0 && s[i - 1].end == r.start { s[i - 1].start } else { r.start }
}

pub open spec fn merge_hi(s: Seq<FreeRange>, i: int, r: FreeRange) -> u64 {
    if i < s.len() && r.end == s[i].start { s[i].end } else { r.end }
}

pub open spec fn merge_a(s: Seq<FreeRange>, i: int, r: FreeRange) -> int {
    if i > 0 && s[i - 1].end == r.start { i - 1 } else { i }
}

pub open spec fn merge_b(s: Seq<FreeRange>, i: int, r: FreeRange) -> int {
    if i < s.len() && r.end == s[i].start { i + 1 } else { i }
}

proof fn lemma_merge_total(s: Seq<FreeRange>, i: int, r: FreeRange)
    requires
        0 <= i <= s.len(),
    ensures
        total(merge_in(s, i, r)) == total(s) + range_len(r) + (if merge_a(s, i, r) < i {
            s[i - 1].end - r.start
        } else {
            0
        }) + (if merge_b(s, i, r) > i {
            s[i].start - r.end
        } else {
            0
        }),
{
    let a = merge_a(s, i, r);
    let b = merge_b(s, i, r);
    let m = FreeRange { start: merge_lo(s, i, r), end: merge_hi(s, i, r) };
    let mid = s.subrange(a, b);
    assert(s =~= s.take(a) + mid + s.skip(b));
    assert(merge_in(s, i, r) =~= s.take(a) + seq![m] + s.skip(b));
    lemma_total_concat(s.take(a) + mid, s.skip(b));
    lemma_total_concat(s.take(a), mid);
    lemma_total_concat(s.take(a) + seq![m], s.skip(b));
    lemma_total_concat(s.take(a), seq![m]);
    lemma_total_single(m);
    if a < i && b > i {
        assert(mid =~= seq![s[i - 1], s[i]]);
        lemma_total_pair(s[i - 1], s[i]);
    } else if a < i {
        assert(mid =~= seq![s[i - 1]]);
        lemma_total_single(s[i - 1]);
    } else if b > i {
        assert(mid =~= seq![s[i]]);
        lemma_total_single(s[i]);
    } else {
        assert(mid =~= Seq::<FreeRange>::empty());
    }
}

proof fn lemma_merge_members(s: Seq<FreeRange>, i: int, r: FreeRange, x: int)
    requires
        0 <= i <= s.len(),
        i > 0 ==> s[i - 1].end <= r.start,
        i < s.len() ==> r.end <= s[i].start,
        i > 0 ==> s[i - 1].start < s[i - 1].end,
        i < s.len() ==> s[i].start < s[i].end,
        r.start < r.end,
    ensures
        in_ranges(merge_in(s, i, r), x) <==> (in_ranges(s, x) || (r.start <= x < r.end)),
{
    let a = merge_a(s, i, r);
    let b = merge_b(s, i, r);
    let m = FreeRange { start: merge_lo(s, i, r), end: merge_hi(s, i, r) };
    let mid = s.subrange(a, b);
    assert(s =~= s.take(a) + mid + s.skip(b));
    assert(merge_in(s, i, r) =~= s.take(a) + seq![m] + s.skip(b));
    lemma_in_ranges_concat(s.take(a) + mid, s.skip(b), x);
    lemma_in_ranges_concat(s.take(a), mid, x);
    lemma_in_ranges_concat(s.take(a) + seq![m], s.skip(b), x);
    lemma_in_ranges_concat(s.take(a), seq![m], x);
    lemma_in_ranges_single(m, x);
    assert(in_ranges(merge_in(s, i, r), x) <==> (in_ranges(s.take(a), x) || (m.start <= x < m.end) || in_ranges(s.skip(b), x)));
    assert(in_ranges(s, x) <==> (in_ranges(s.take(a), x) || in_ranges(mid, x) || in_ranges(s.skip(b), x)));
    if a < i && b > i {
        assert(mid =~= seq![s[i - 1]] + seq![s[i]]);
        lemma_in_ranges_concat(seq![s[i - 1]], seq![s[i]], x);
        lemma_in_ranges_single(s[i - 1], x);
        lemma_in_ranges_single(s[i], x);
    } else if a < i {
        assert(mid =~= seq![s[i - 1]]);
        lemma_in_ranges_single(s[i - 1], x);
    } else if b > i {
        assert(mid =~= seq![s[i]]);
        lemma_in_ranges_single(s[i], x);
    } else {
        assert(mid =~= Seq::<FreeRange>::empty());
    }
}

proof fn lemma_merge_wf(s: Seq<FreeRange>, bsize: int, i: int, r: FreeRange)
    requires
        ranges_wf(s, bsize),
        0 <= i <= s.len(),
        i > 0 ==> s[i - 1].end <= r.start,
        i < s.len() ==> r.end <= s[i].start,
        r.start < r.end <= bsize,
    ensures
        ranges_wf(merge_in(s, i, r), bsize),
{
    let a = merge_a(s, i, r);
    let b = merge_b(s, i, r);
    let m = FreeRange { start: merge_lo(s, i, r), end: merge_hi(s, i, r) };
    let c = merge_in(s, i, r);
    assert(c =~= s.take(a) + seq![m] + s.skip(b));
    let np = a + 1;
    assert(c.len() == a + 1 + s.len() - b);
    assert(c[a] == m);
    assert forall|k: int| 0 <= k < c.len() implies (#[trigger] c[k]).start < c[k].end <= bsize by {
        if k < a {
            assert(c[k] == s[k]);
        } else if k > a {
            assert(c[k] == s[k - np + b]);
        } else {
            if b > i {
                assert(s[i].start < s[i].end);
            }
            if a < i {
                assert(s[i - 1].start < s[i - 1].end);
            }
        }
    }
    assert forall|j: int, k: int| 0 <= j < k < c.len() implies #[trigger] c[j].end < #[trigger] c[k].start by {
        if k < a {
            assert(c[j] == s[j] && c[k] == s[k]);
        } else if j > a {
            assert(c[j] == s[j - np + b] && c[k] == s[k - np + b]);
        } else if j < a && k == a {
            assert(c[j] == s[j]);
            if a < i {
                assert(s[j].end < s[i - 1].start);
            } else {
                assert(s[j].end < s[i - 1].start || j == i - 1);
            }
        } else if j < a && k > a {
            assert(c[j] == s[j] && c[k] == s[k - np + b]);
        } else if j == a && k > a {
            assert(c[k] == s[k - np + b]);
            if b > i {
                assert(s[i].end < s[k - np + b].start);
            } else {
                assert(s[i].start <= s[k - np + b].start);
            }
        }
    }
}

/// Giving back a range that is free of any overlap keeps the list well formed, adds
/// exactly those addresses and exactly that many bytes.
proof fn lemma_merge_in(s: Seq<FreeRange>, bsize: int, i: int, r: FreeRange)
    requires
        ranges_wf(s, bsize),
        insert_pos(s, i, r.start as int),
        r.start < r.end <= bsize,
        forall|a: int| r.start <= a < r.end ==> !in_ranges(s, a),
    ensures
        ranges_wf(merge_in(s, i, r), bsize),
        forall|a: int|
            in_ranges(merge_in(s, i, r), a) <==> (in_ranges(s, a) || (r.start <= a < r.end)),
        total(merge_in(s, i, r)) == total(s) + range_len(r),
{
    lemma_merge_neighbours(s, bsize, i, r);
    lemma_merge_total(s, i, r);
    lemma_merge_wf(s, bsize, i, r);
    if i > 0 {
        assert(s[i - 1].start < s[i - 1].end);
    }
    if i < s.len() {
        assert(s[i].start < s[i].end);
    }
    assert forall|a: int|
        in_ranges(merge_in(s, i, r), a) <==> (in_ranges(s, a) || (r.start <= a < r.end)) by {
        lemma_merge_members(s, i, r, a);
    }
}

/// A block of device memory, sub-allocated first-fit through a sorted free list.
pub struct MemoryBlock {
    memory: ash::vk::DeviceMemory,
    size: u64,
    free: Vec<FreeRange>,
}

impl MemoryBlock {
    /// The device memory this block sub-allocates.
    pub closed spec fn spec_memory(&self) -> ash::vk::DeviceMemory {
        self.memory
    }

    /// The device memory this block sub-allocates.
    pub fn memory(&self) -> (r: ash::vk::DeviceMemory)
        ensures
            r == self.spec_memory(),
    {
        self.memory
    }

    /// Size of the block, in bytes.
    pub closed spec fn spec_size(&self) -> int {
        self.size as int
    }

    /// The free ranges, sorted by address.
    pub closed spec fn free_list(&self) -> Seq<FreeRange> {
        self.free@
    }

    /// Internal consistency of the free list.
    pub open spec fn wf(&self) -> bool {
        ranges_wf(self.free_list(), self.spec_size())
    }

    /// A fresh block: one free range covering all of it.
    pub fn new(memory: ash::vk::DeviceMemory, size: u64) -> (b: MemoryBlock)
        requires
            size > 0,
        ensures
            b.wf(),
            b.spec_memory() == memory,
            b.spec_size() == size,
            b.free_list() == seq![FreeRange { start: 0, end: size }],
    {
        MemoryBlock { memory, size, free: vec![FreeRange { start: 0, end: size }] }
    }

    /// Size of the block, in bytes.
    pub fn size(&self) -> (r: u64)
        ensures
            r == self.spec_size(),
    {
        self.size
    }

    /// Free bytes left in the block: the sum of the free ranges.
    pub fn free_bytes(&self) -> (r: u64)
        requires
            self.wf(),
        ensures
            r == total(self.free_list()),
    {
        let ghost s = self.free@;
        let mut sum: u64 = 0;
        let mut i: usize = 0;
        proof {
            lemma_total_bounded(s, self.size as int);
        }
        while i < self.free.len()
            invariant
                s == self.free@,
                ranges_wf(s, self.size as int),
                i <= s.len(),
                sum == total(s.take(i as int)),
            decreases s.len() - i,
        {
            proof {
                assert(s.take(i + 1).drop_last() =~= s.take(i as int));
                assert(ranges_wf(s.take(i + 1), self.size as int));
                lemma_total_bounded(s.take(i + 1), self.size as int);
            }
            sum = sum + (self.free[i].end - self.free[i].start);
            i = i + 1;
        }
        proof {
            assert(s.take(i as int) =~= s);
        }
        sum
    }

    /// Whether every hole can be rounded up to a multiple of `align` within 64 bits
    /// (what `try_alloc` requires).
    pub fn holes_alignable(&self, align: u64) -> (r: bool)
        ensures
            r == forall|q: int|
                0 <= q < self.free_list().len() ==> #[trigger] self.free_list()[q].start + align - 1
                    <= u64::MAX,
    {
        let mut q: usize = 0;
        while q < self.free.len()
            invariant
                q <= self.free@.len(),
                forall|p: int| 0 <= p < q ==> #[trigger] self.free@[p].start + align - 1 <= u64::MAX,
            decreases self.free@.len() - q,
        {
            if self.free[q].start as u128 + align as u128 > u64::MAX as u128 + 1 {
                assert(!(self.free_list()[q as int].start + align - 1 <= u64::MAX));
                return false;
            }
            q = q + 1;
        }
        true
    }

    /// Cuts `size` bytes aligned on `align` out of the first hole that can hold them;
    /// returns their offset, or `None` when no hole can.
    pub fn try_alloc(&mut self, size: u64, align: u64) -> (r: Option<u64>)
        requires
            old(self).wf(),
            size > 0,
            is_pow2(align),
            forall|j: int|
                0 <= j < old(self).free_list().len() ==> (#[trigger] old(self).free_list()[j]).start
                    + align - 1 <= u64::MAX,
        ensures
            final(self).wf(),
            final(self).spec_memory() == old(self).spec_memory(),
            final(self).spec_size() == old(self).spec_size(),
            match r {
                Some(off) => exists|i: int|
                    #![trigger first_fit_at(old(self).free_list(), i, size as int, align as int)]
                    first_fit_at(old(self).free_list(), i, size as int, align as int) && off
                        == align_up_spec(old(self).free_list()[i].start as int, align as int)
                        && final(self).free_list() == carve(
                        old(self).free_list(),
                        i,
                        off as int,
                        size as int,
                    ),
                None => final(self).free_list() == old(self).free_list() && forall|j: int|
                    0 <= j < old(self).free_list().len() ==> !fits(
                        #[trigger] old(self).free_list()[j],
                        size as int,
                        align as int,
                    ),
            },
            r matches Some(off) ==> {
                &&& off as int % align as int == 0
                &&& off + size <= old(self).spec_size()
                &&& forall|a: int| off <= a < off + size ==> in_ranges(old(self).free_list(), a)
                &&& forall|a: int|
                    in_ranges(final(self).free_list(), a) <==> (in_ranges(old(self).free_list(), a)
                        && !(off <= a < off + size))
                &&& total(final(self).free_list()) == total(old(self).free_list()) - size
            },
    {
        let ghost s = self.free@;
        let mut i: usize = 0;
        while i < self.free.len()
            invariant
                s == self.free@,
                self.memory == old(self).memory,
                self.size == old(self).size,
                s == old(self).free_list(),
                ranges_wf(s, self.size as int),
                size > 0,
                is_pow2(align),
                forall|j: int| 0 <= j < s.len() ==> (#[trigger] s[j]).start + align - 1 <= u64::MAX,
                i <= s.len(),
                forall|j: int| 0 <= j < i ==> !fits(#[trigger] s[j], size as int, align as int),
            decreases s.len() - i,
        {
            let hole = self.free[i];
            let start = align_up(hole.start, align);
            proof {
                lemma_pow2_positive(align);
                lemma_align_up_props(hole.start as int, align as int);
            }
            if start <= hole.end && hole.end - start >= size {
                if start + size < hole.end {
                    self.free.insert(i + 1, FreeRange { start: start + size, end: hole.end });
                }
                if start == hole.start {
                    self.free.remove(i);
                } else {
                    self.free.set(i, FreeRange { start: hole.start, end: start });
                }
                proof {
                    assert(self.free@ =~= carve(s, i as int, start as int, size as int));
                    lemma_carve(s, self.size as int, i as int, start as int, size as int);
                    assert(first_fit_at(s, i as int, size as int, align as int));
                    assert forall|a: int| start <= a < start + size implies in_ranges(s, a) by {
                        assert(s[i as int].start <= a < s[i as int].end);
                    }
                }
                return Some(start);
            }
            i = i + 1;
        }
        None
    }

    /// Gives back `[offset, offset + size)` and merges it with the free neighbours it
    /// touches.
    #[verifier::spinoff_prover]
    pub fn dealloc(&mut self, offset: u64, size: u64)
        requires
            old(self).wf(),
            size > 0,
            offset + size <= old(self).spec_size(),
            forall|a: int| offset <= a < offset + size ==> !in_ranges(old(self).free_list(), a),
        ensures
            final(self).wf(),
            final(self).spec_memory() == old(self).spec_memory(),
            final(self).spec_size() == old(self).spec_size(),
            exists|i: int|
                insert_pos(old(self).free_list(), i, offset as int) && final(self).free_list()
                    == merge_in(
                    old(self).free_list(),
                    i,
                    FreeRange { start: offset, end: (offset + size) as u64 },
                ),
            forall|a: int|
                in_ranges(final(self).free_list(), a) <==> (in_ranges(old(self).free_list(), a) || (
                offset <= a < offset + size)),
            total(final(self).free_list()) == total(old(self).free_list()) + size,
    {
        let ghost s = self.free@;
        let range = FreeRange { start: offset, end: offset + size };
        let mut i: usize = 0;
        while i < self.free.len() && self.free[i].start < offset
            invariant
                s == self.free@,
                i <= s.len(),
                forall|j: int| 0 <= j < i ==> (#[trigger] s[j]).start < offset,
            decreases s.len() - i,
        {
            i = i + 1;
        }
        proof {
            assert forall|j: int| i <= j < s.len() implies (#[trigger] s[j]).start >= offset by {
                if j > i {
                    assert(s[i as int].end < s[j].start);
                }
            }
            assert(insert_pos(s, i as int, offset as int));
        }
        self.free.insert(i, range);
        assert(self.free@.len() == s.len() + 1);
        let ghost mn = (i as int) < s.len() && range.end == s[i as int].start;
        let ghost mp = i > 0 && s[i - 1].end == range.start;
        let ghost hi = if mn { s[i as int].end } else { range.end };
        let ghost b = if mn { i + 1 } else { i as int };
        proof {
            assert(self.free@ =~= s.take(i as int) + seq![range] + s.skip(i as int));
        }
        let n = self.free.len();
        if i + 1 < n && self.free[i].end == self.free[i + 1].start {
            let merged = FreeRange { start: self.free[i].start, end: self.free[i + 1].end };
            self.free.set(i, merged);
            self.free.remove(i + 1);
        }
        let ghost m1 = FreeRange { start: range.start, end: hi };
        proof {
            assert(self.free@ =~= s.take(i as int) + seq![m1] + s.skip(b));
        }
        if i > 0 && self.free[i - 1].end == self.free[i].start {
            let merged = FreeRange { start: self.free[i - 1].start, end: self.free[i].end };
            self.free.set(i - 1, merged);
            self.free.remove(i);
        }
        proof {
            if mp {
                assert(self.free@ =~= s.take(i - 1) + seq![
                    FreeRange { start: s[i - 1].start, end: hi },
                ] + s.skip(b));
            }
            assert(self.free@ =~= merge_in(s, i as int, range));
            lemma_merge_in(s, self.size as int, i as int, range);
            assert(range.start == offset && range.end == offset + size);
            assert(self.free_list() == merge_in(s, i as int, range));
            assert(s == old(self).free_list());
        }
    }
}

} // verus!

verus! {

proof fn lemma_drop_first_members(s: Seq<FreeRange>, size: int, a: int)
    requires
        ranges_wf(s, size),
        s.len() > 0,
    ensures
        in_ranges(s.drop_first(), a) <==> (in_ranges(s, a) && a >= s[0].end),
{
    let d = s.drop_first();
    if in_ranges(d, a) {
        let k = choose|k: int| 0 <= k < d.len() && #[trigger] d[k].start <= a && a < d[k].end;
        assert(d[k] == s[k + 1]);
        assert(s[0].end < s[k + 1].start);
    }
    if in_ranges(s, a) && a >= s[0].end {
        let k = choose|k: int| 0 <= k < s.len() && #[trigger] s[k].start <= a && a < s[k].end;
        if k == 0 {
            assert(false);
        }
        assert(d[k - 1] == s[k]);
    }
}

/// A well-formed free list is the only one describing its set of free addresses.
pub proof fn lemma_free_list_canonical(s: Seq<FreeRange>, t: Seq<FreeRange>, size: int)
    requires
        ranges_wf(s, size),
        ranges_wf(t, size),
        forall|a: int| in_ranges(s, a) <==> in_ranges(t, a),
    ensures
        s == t,
    decreases s.len() + t.len(),
{
    if s.len() == 0 || t.len() == 0 {
        if s.len() > 0 {
            assert(in_ranges(s, s[0].start as int));
        }
        if t.len() > 0 {
            assert(in_ranges(t, t[0].start as int));
        }
        assert(s =~= t);
    } else {
        let x = s[0].start as int;
        let y = t[0].start as int;
        assert(s[0].start < s[0].end);
        assert(t[0].start < t[0].end);
        assert(in_ranges(s, x));
        assert(in_ranges(t, y));
        if y < x {
            let j = choose|j: int| 0 <= j < s.len() && #[trigger] s[j].start <= y && y < s[j].end;
            if j > 0 {
                assert(s[0].end < s[j].start);
            }
        }
        if x < y {
            let j = choose|j: int| 0 <= j < t.len() && #[trigger] t[j].start <= x && x < t[j].end;
            if j > 0 {
                assert(t[0].end < t[j].start);
            }
        }
        let es = s[0].end as int;
        let et = t[0].end as int;
        if es < et {
            assert(t[0].start <= es < t[0].end);
            assert(in_ranges(t, es));
            let j = choose|j: int| 0 <= j < s.len() && #[trigger] s[j].start <= es && es < s[j].end;
            if j > 0 {
                assert(s[0].end < s[j].start);
            }
        }
        if et < es {
            assert(s[0].start <= et < s[0].end);
            assert(in_ranges(s, et));
            let j = choose|j: int| 0 <= j < t.len() && #[trigger] t[j].start <= et && et < t[j].end;
            if j > 0 {
                assert(t[0].end < t[j].start);
            }
        }
        assert(s[0] == t[0]);
        let ds = s.drop_first();
        let dt = t.drop_first();
        assert(ranges_wf(ds, size));
        assert(ranges_wf(dt, size));
        assert forall|a: int| in_ranges(ds, a) <==> in_ranges(dt, a) by {
            lemma_drop_first_members(s, size, a);
            lemma_drop_first_members(t, size, a);
        }
        lemma_free_list_canonical(ds, dt, size);
        assert(s =~= seq![s[0]] + ds);
        assert(t =~= seq![t[0]] + dt);
    }
}

/// Giving back a slice that was just cut out of a block restores its free list exactly:
/// `dealloc(off, size)` undoes a `try_alloc(size, ..)` that returned `Some(off)`.
pub proof fn law_dealloc_undoes_try_alloc(
    before: MemoryBlock,
    allocated: MemoryBlock,
    freed: MemoryBlock,
    off: u64,
    size: u64,
)
    requires
        before.wf(),
        allocated.wf(),
        freed.wf(),
        freed.spec_size() == before.spec_size(),
        forall|a: int| off <= a < off + size ==> in_ranges(before.free_list(), a),
        forall|a: int|
            in_ranges(allocated.free_list(), a) <==> (in_ranges(before.free_list(), a) && !(off <= a
                < off + size)),
        forall|a: int|
            in_ranges(freed.free_list(), a) <==> (in_ranges(allocated.free_list(), a) || (off <= a
                < off + size)),
    ensures
        freed.free_list() == before.free_list(),
        total(freed.free_list()) == total(before.free_list()),
{
    lemma_free_list_canonical(freed.free_list(), before.free_list(), before.spec_size());
}

} // verus!

verus! {

/// Size of a block requested from the driver: a terrain mesh of the finest level takes
/// about 2 MB, so a block holds some thirty of them.
pub const BLOCK_SIZE: u64 = 64 * 1024 * 1024;

/// A slice of a block: where a buffer is bound, and what is needed to give it back.
pub struct Allocation {
    memory: ash::vk::DeviceMemory,
    offset: u64,
    size: u64,
    block: usize,
    memory_type: u32,
}

impl Allocation {
    /// Device memory the slice lives in.
    pub closed spec fn spec_memory(&self) -> ash::vk::DeviceMemory {
        self.memory
    }

    /// Offset of the slice in its block.
    pub closed spec fn spec_offset(&self) -> int {
        self.offset as int
    }

    /// Size of the slice.
    pub closed spec fn spec_size(&self) -> int {
        self.size as int
    }

    /// Device memory the slice lives in (what `bind_buffer_memory` takes).
    pub fn memory(&self) -> (r: ash::vk::DeviceMemory)
        ensures
            r == self.spec_memory(),
    {
        self.memory
    }

    /// Offset of the slice in its block (what `bind_buffer_memory` takes).
    pub fn offset(&self) -> (r: u64)
        ensures
            r == self.spec_offset(),
    {
        self.offset
    }

    /// Size of the slice.
    pub fn size(&self) -> (r: u64)
        ensures
            r == self.spec_size(),
    {
        self.size
    }

    /// Index of the block in the list of its memory type.
    pub closed spec fn spec_block(&self) -> int {
        self.block as int
    }

    /// Memory type the slice was taken from.
    pub closed spec fn spec_memory_type(&self) -> u32 {
        self.memory_type
    }

    /// Memory type the slice was taken from.
    pub fn memory_type(&self) -> (r: u32)
        ensures
            r == self.spec_memory_type(),
    {
        self.memory_type
    }

    /// Index of the block in the list of its memory type.
    pub fn block(&self) -> (r: usize)
        ensures
            r == self.spec_block(),
    {
        self.block
    }
}

/// What `allocate` decided.
pub enum AllocStep {
    /// The request was served by an existing block.
    Placed(Allocation),
    /// No block of that memory type has room: a block of `block_size` bytes must be
    /// obtained from the driver and handed to `allocate_in_new_block`.
    NeedBlock { block_size: u64 },
}

/// No hole of `b` can serve the request.
pub open spec fn no_fit_in_block(b: MemoryBlock, size: int, align: int) -> bool {
    forall|i: int| 0 <= i < b.free_list().len() ==> !fits(#[trigger] b.free_list()[i], size, align)
}

/// Size of the block obtained when no existing block has room.
pub open spec fn new_block_size(size: u64) -> u64 {
    if BLOCK_SIZE >= size { BLOCK_SIZE } else { size }
}

/// Number of blocks of the memory types listed in `types`.
pub open spec fn block_count(m: Map<u32, Vec<MemoryBlock>>, types: Seq<u32>) -> int
    decreases types.len(),
{
    if types.len() == 0 {
        0
    } else {
        block_count(m, types.drop_last()) + m[types.last()]@.len()
    }
}

/// Sub-allocator of device memory: a list of blocks per memory type, each split first-fit.
pub struct DeviceMemoryAllocator {
    blocks: std::collections::HashMap<u32, Vec<MemoryBlock>>,
    types: Vec<u32>,
}

impl DeviceMemoryAllocator {
    /// The blocks of memory type `t`, in creation order.
    pub closed spec fn blocks_of(&self, t: u32) -> Seq<MemoryBlock> {
        if self.blocks@.contains_key(t) {
            self.blocks@[t]@
        } else {
            Seq::empty()
        }
    }

    /// Number of blocks the allocator holds.
    pub closed spec fn spec_block_count(&self) -> int {
        block_count(self.blocks@, self.types@)
    }

    /// Every block is well formed.
    pub closed spec fn wf(&self) -> bool {
        &&& forall|t: u32, j: int|
            0 <= j < self.blocks_of(t).len() ==> (#[trigger] self.blocks_of(t)[j]).wf()
        &&& self.types@.no_duplicates()
        &&& forall|t: u32| self.blocks@.contains_key(t) <==> self.types@.contains(t)
    }

    /// Every hole of every block of memory type `t` can be rounded up to a multiple of
    /// `align` without leaving the 64-bit range.
    pub open spec fn holes_alignable(&self, t: u32, align: u64) -> bool {
        forall|k: int, q: int|
            #![trigger self.blocks_of(t)[k].free_list()[q]]
            0 <= k < self.blocks_of(t).len() && 0 <= q < self.blocks_of(t)[k].free_list().len()
                ==> self.blocks_of(t)[k].free_list()[q].start + align - 1 <= u64::MAX
    }

    /// `al` designates a slice that is currently handed out: its block exists and none of
    /// its bytes is free.
    pub open spec fn is_live(&self, al: &Allocation) -> bool {
        let bs = self.blocks_of(al.spec_memory_type());
        &&& 0 <= al.spec_block() < bs.len()
        &&& al.spec_size() > 0
        &&& al.spec_offset() + al.spec_size() <= bs[al.spec_block()].spec_size()
        &&& al.spec_memory() == bs[al.spec_block()].spec_memory()
        &&& forall|a: int|
            al.spec_offset() <= a < al.spec_offset() + al.spec_size() ==> !in_ranges(
                bs[al.spec_block()].free_list(),
                a,
            )
    }

    /// Whether `holes_alignable(memory_type, align)` holds, which `allocate` requires.
    pub fn can_align(&self, memory_type: u32, align: u64) -> (r: bool)
        ensures
            r == self.holes_alignable(memory_type, align),
    {
        broadcast use vstd::std_specs::hash::group_hash_axioms;

        match self.blocks.get(&memory_type) {
            None => true,
            Some(bs) => {
                let mut k: usize = 0;
                while k < bs.len()
                    invariant
                        bs@ == self.blocks_of(memory_type),
                        k <= bs@.len(),
                        forall|j: int, q: int|
                            #![trigger self.blocks_of(memory_type)[j].free_list()[q]]
                            0 <= j < k && 0 <= q < self.blocks_of(memory_type)[j].free_list().len()
                                ==> self.blocks_of(memory_type)[j].free_list()[q].start + align - 1
                                <= u64::MAX,
                    decreases bs@.len() - k,
                {
                    if !bs[k].holes_alignable(align) {
                        proof {
                            let q = choose|q: int|
                                0 <= q < bs@[k as int].free_list().len() && !(
                                #[trigger] bs@[k as int].free_list()[q].start + align - 1
                                    <= u64::MAX);
                            assert(self.blocks_of(memory_type)[k as int].free_list()[q].start + align
                                - 1 > u64::MAX);
                        }
                        return false;
                    }
                    k = k + 1;
                }
                true
            },
        }
    }

    /// An allocator without any block.
    pub fn new() -> (r: DeviceMemoryAllocator)
        ensures
            r.wf(),
            forall|t: u32| r.blocks_of(t).len() == 0,
    {
        DeviceMemoryAllocator { blocks: std::collections::HashMap::new(), types: Vec::new() }
    }
}


/// Two blocks that no observation tells apart.
pub open spec fn same_block(a: MemoryBlock, b: MemoryBlock) -> bool {
    &&& a.spec_memory() == b.spec_memory()
    &&& a.spec_size() == b.spec_size()
    &&& a.free_list() == b.free_list()
}

impl DeviceMemoryAllocator {
    /// First-fit over the blocks of `memory_type`, in creation order. When none has room,
    /// says how large a new block must be; the caller obtains it from the driver and
    /// hands it to `allocate_in_new_block`.
    pub fn allocate(&mut self, memory_type: u32, size: u64, alignment: u64) -> (r: AllocStep)
        requires
            old(self).wf(),
            size > 0,
            is_pow2(alignment),
            old(self).holes_alignable(memory_type, alignment),
        ensures
            final(self).wf(),
            final(self).spec_block_count() == old(self).spec_block_count(),
            forall|t: u32| t != memory_type ==> final(self).blocks_of(t) == old(self).blocks_of(t),
            final(self).blocks_of(memory_type).len() == old(self).blocks_of(memory_type).len(),
            match r {
                AllocStep::Placed(al) => {
                    let j = al.spec_block();
                    let ob = old(self).blocks_of(memory_type);
                    let nb = final(self).blocks_of(memory_type);
                    &&& al.spec_memory_type() == memory_type
                    &&& al.spec_size() == size
                    &&& 0 <= j < ob.len()
                    &&& forall|k: int| 0 <= k < j ==> no_fit_in_block(#[trigger] ob[k], size as int, alignment as int)
                    &&& exists|i: int|
                        #![trigger first_fit_at(ob[j].free_list(), i, size as int, alignment as int)]
                        first_fit_at(ob[j].free_list(), i, size as int, alignment as int)
                            && al.spec_offset() == align_up_spec(
                            ob[j].free_list()[i].start as int,
                            alignment as int,
                        ) && nb[j].free_list() == carve(
                            ob[j].free_list(),
                            i,
                            al.spec_offset(),
                            size as int,
                        )
                    &&& nb[j].spec_memory() == ob[j].spec_memory()
                    &&& nb[j].spec_size() == ob[j].spec_size()
                    &&& forall|k: int| 0 <= k < ob.len() && k != j ==> same_block(#[trigger] nb[k], ob[k])
                    &&& al.spec_memory() == ob[j].spec_memory()
                    &&& al.spec_offset() % alignment as int == 0
                    &&& final(self).is_live(&al)
                },
                AllocStep::NeedBlock { block_size } => {
                    let ob = old(self).blocks_of(memory_type);
                    &&& block_size == new_block_size(size)
                    &&& forall|k: int| 0 <= k < ob.len() ==> no_fit_in_block(#[trigger] ob[k], size as int, alignment as int)
                    &&& forall|k: int| 0 <= k < ob.len() ==> same_block(#[trigger] final(self).blocks_of(memory_type)[k], ob[k])
                },
            },
    {
        broadcast use vstd::std_specs::hash::group_hash_axioms;
        let block_size = if BLOCK_SIZE >= size { BLOCK_SIZE } else { size };
        let ghost ob = self.blocks_of(memory_type);
        let ghost m0 = self.blocks@;
        let opt = self.blocks.remove(&memory_type);
        match opt {
            None => {
                proof {
                    assert(self.blocks@ =~= m0);
                    assert(self.types@ == old(self).types@);
                    assert forall|t: u32| #[trigger] self.blocks_of(t) == old(self).blocks_of(t) by {}
                    assert(self.wf());
                }
                AllocStep::NeedBlock { block_size }
            },
            Some(mut bs) => {
                let ghost m1 = self.blocks@;
                assert(bs@ == ob);
                let mut j: usize = 0;
                while j < bs.len()
                    invariant
                        m1 == m0.remove(memory_type),
                        self.blocks@ == m1,
                        self.types@ == old(self).types@,
                        m0 == old(self).blocks@,
                        ob == old(self).blocks_of(memory_type),
                        old(self).wf(),
                        m0.contains_key(memory_type),
                        bs@.len() == ob.len(),
                        j <= bs@.len(),
                        size > 0,
                        is_pow2(alignment),
                        old(self).holes_alignable(memory_type, alignment),
                        forall|k: int| 0 <= k < bs@.len() ==> same_block(#[trigger] bs@[k], ob[k]),
                        forall|k: int| 0 <= k < j ==> no_fit_in_block(#[trigger] ob[k], size as int, alignment as int),
                    decreases bs@.len() - j,
                {
                    proof {
                        assert(ob[j as int].wf());
                        let fl = bs@[j as int].free_list();
                        assert(same_block(bs@[j as int], ob[j as int]));
                        assert forall|q: int| 0 <= q < fl.len() implies (#[trigger] fl[q]).start + alignment - 1 <= u64::MAX by {
                            assert(ob[j as int].free_list()[q] == fl[q]);
                        }
                    }
                    let r = bs[j].try_alloc(size, alignment);
                    match r {
                        Some(off) => {
                            let al = Allocation {
                                memory: bs[j].memory(),
                                offset: off,
                                size,
                                block: j,
                                memory_type,
                            };
                            let ghost bs_final = bs;
                            self.blocks.insert(memory_type, bs);
                            proof {
                                assert(self.blocks@ =~= m0.insert(memory_type, bs_final));
                                assert forall|t: u32| t != memory_type implies self.blocks_of(t) == old(self).blocks_of(t) by {}
                                assert(self.blocks_of(memory_type) == bs_final@);
                                lemma_block_count_same_len(m0, self.blocks@, self.types@, memory_type);
                                assert forall|t: u32, k: int|
                                    0 <= k < self.blocks_of(t).len() implies (#[trigger] self.blocks_of(t)[k]).wf() by {
                                    if t == memory_type && k != j {
                                        assert(same_block(bs_final@[k], ob[k]));
                                        assert(ob[k].wf());
                                    }
                                }
                                assert forall|t: u32| self.blocks@.contains_key(t) <==> self.types@.contains(t) by {
                                    assert(m0.contains_key(t) <==> self.types@.contains(t));
                                }
                                assert(self.wf());
                            }
                            return AllocStep::Placed(al);
                        },
                        None => {},
                    }
                    j = j + 1;
                }
                let ghost bs_final = bs;
                self.blocks.insert(memory_type, bs);
                proof {
                    assert(self.blocks@ =~= m0.insert(memory_type, bs_final));
                    assert forall|t: u32| t != memory_type implies self.blocks_of(t) == old(self).blocks_of(t) by {}
                    lemma_block_count_same_len(m0, self.blocks@, self.types@, memory_type);
                    assert(self.blocks_of(memory_type) == bs_final@);
                    assert forall|t: u32, k: int|
                        0 <= k < self.blocks_of(t).len() implies (#[trigger] self.blocks_of(t)[k]).wf() by {
                        if t == memory_type {
                            assert(same_block(bs_final@[k], ob[k]));
                            assert(ob[k].wf());
                        }
                    }
                    assert forall|t: u32| self.blocks@.contains_key(t) <==> self.types@.contains(t) by {
                        assert(m0.contains_key(t) <==> self.types@.contains(t));
                    }
                    assert(self.wf());
                }
                AllocStep::NeedBlock { block_size }
            },
        }
    }
}

proof fn lemma_block_count_insert(
    m: Map<u32, Vec<MemoryBlock>>,
    types: Seq<u32>,
    t: u32,
    v: Vec<MemoryBlock>,
)
    requires
        types.no_duplicates(),
    ensures
        block_count(m.insert(t, v), types) == block_count(m, types) + (if types.contains(t) {
            v@.len() - m[t]@.len()
        } else {
            0
        }),
    decreases types.len(),
{
    if types.len() > 0 {
        let d = types.drop_last();
        assert(d.no_duplicates());
        lemma_block_count_insert(m, d, t, v);
        if types.last() == t {
            assert(!d.contains(t));
        } else {
            assert(types.contains(t) <==> d.contains(t)) by {
                if types.contains(t) {
                    let k = choose|k: int| 0 <= k < types.len() && types[k] == t;
                    assert(k < types.len() - 1);
                    assert(d[k] == t);
                }
            }
        }
    }
}

proof fn lemma_block_count_same_len(
    m0: Map<u32, Vec<MemoryBlock>>,
    m1: Map<u32, Vec<MemoryBlock>>,
    types: Seq<u32>,
    t: u32,
)
    requires
        types.no_duplicates(),
        m0.contains_key(t),
        m1 == m0.insert(t, m1[t]),
        m1[t]@.len() == m0[t]@.len(),
    ensures
        block_count(m1, types) == block_count(m0, types),
{
    lemma_block_count_insert(m0, types, t, m1[t]);
}


impl DeviceMemoryAllocator {
    /// Registers a block freshly obtained from the driver for `memory_type` and cuts the
    /// request out of its start.
    pub fn allocate_in_new_block(
        &mut self,
        memory_type: u32,
        memory: ash::vk::DeviceMemory,
        block_size: u64,
        size: u64,
        alignment: u64,
    ) -> (al: Allocation)
        requires
            old(self).wf(),
            size > 0,
            is_pow2(alignment),
            size <= block_size,
        ensures
            final(self).wf(),
            final(self).spec_block_count() == old(self).spec_block_count() + 1,
            forall|t: u32| t != memory_type ==> final(self).blocks_of(t) == old(self).blocks_of(t),
            ({
                let ob = old(self).blocks_of(memory_type);
                let nb = final(self).blocks_of(memory_type);
                &&& nb.len() == ob.len() + 1
                &&& forall|k: int| 0 <= k < ob.len() ==> same_block(#[trigger] nb[k], ob[k])
                &&& nb[ob.len() as int].spec_memory() == memory
                &&& nb[ob.len() as int].spec_size() == block_size
                &&& nb[ob.len() as int].free_list() == carve(
                    seq![FreeRange { start: 0, end: block_size }],
                    0,
                    0,
                    size as int,
                )
                &&& al.spec_block() == ob.len()
            }),
            al.spec_memory_type() == memory_type,
            al.spec_memory() == memory,
            al.spec_offset() == 0,
            al.spec_size() == size,
            final(self).is_live(&al),
    {
        broadcast use vstd::std_specs::hash::group_hash_axioms;
        let ghost ob = self.blocks_of(memory_type);
        let ghost m0 = self.blocks@;
        let ghost types0 = self.types@;
        let mut block = MemoryBlock::new(memory, block_size);
        proof {
            lemma_pow2_positive(alignment);
            lemma_align_up_props(0, alignment as int);
            assert(align_up_spec(0, alignment as int) == 0) by (nonlinear_arith)
                requires alignment > 0;
            assert(fits(block.free_list()[0], size as int, alignment as int));
        }
        let off = block.try_alloc(size, alignment);
        let offset = match off {
            Some(o) => o,
            None => {
                proof {
                    assert(false);
                }
                0
            },
        };
        proof {
            let i = choose|i: int| #![trigger first_fit_at(seq![FreeRange { start: 0, end: block_size }], i, size as int, alignment as int)]
                first_fit_at(seq![FreeRange { start: 0, end: block_size }], i, size as int, alignment as int)
                && offset == align_up_spec(seq![FreeRange { start: 0, end: block_size }][i].start as int, alignment as int)
                && block.free_list() == carve(seq![FreeRange { start: 0, end: block_size }], i, offset as int, size as int);
            assert(i == 0);
        }
        let opt = self.blocks.remove(&memory_type);
        let mut bs = match opt {
            Some(v) => v,
            None => {
                self.types.push(memory_type);
                Vec::new()
            },
        };
        let idx = bs.len();
        bs.push(block);
        let ghost bs_final = bs;
        self.blocks.insert(memory_type, bs);
        let al = Allocation { memory, offset, size, block: idx, memory_type };
        proof {
            assert(self.blocks@ =~= m0.insert(memory_type, bs_final));
            assert(self.blocks_of(memory_type) == bs_final@);
            assert(bs_final@ =~= ob.push(block));
            assert forall|t: u32| t != memory_type implies self.blocks_of(t) == old(self).blocks_of(t) by {}
            lemma_block_count_insert(m0, types0, memory_type, bs_final);
            if !m0.contains_key(memory_type) {
                assert(!types0.contains(memory_type));
                assert(self.types@ == types0.push(memory_type));
                assert(self.types@.drop_last() =~= types0);
                lemma_block_count_insert(m0, types0, memory_type, bs_final);
                assert(self.types@.no_duplicates()) by {
                    assert forall|x: int, y: int| 0 <= x < y < self.types@.len() implies self.types@[x] != self.types@[y] by {
                        if y == self.types@.len() - 1 {
                            assert(types0.contains(self.types@[x]));
                        }
                    }
                }
                assert(block_count(self.blocks@, self.types@) == block_count(self.blocks@, types0) + bs_final@.len());
            } else {
                assert(types0.contains(memory_type));
            }
            assert forall|t: u32, k: int|
                0 <= k < self.blocks_of(t).len() implies (#[trigger] self.blocks_of(t)[k]).wf() by {
                if t == memory_type && k < ob.len() {
                    assert(old(self).blocks_of(t)[k].wf());
                }
            }
            assert forall|t: u32| self.blocks@.contains_key(t) <==> self.types@.contains(t) by {
                if t == memory_type {
                    assert(self.types@.contains(memory_type)) by {
                        if m0.contains_key(memory_type) {
                        } else {
                            assert(self.types@[self.types@.len() - 1] == memory_type);
                        }
                    }
                } else {
                    assert(m0.contains_key(t) <==> types0.contains(t));
                    if self.types@.contains(t) && !types0.contains(t) {
                        let k = choose|k: int| 0 <= k < self.types@.len() && self.types@[k] == t;
                        if k < types0.len() {
                            assert(types0[k] == t);
                        }
                    }
                    if types0.contains(t) {
                        let k = choose|k: int| 0 <= k < types0.len() && types0[k] == t;
                        assert(self.types@[k] == t);
                    }
                }
            }
            assert forall|a: int| offset <= a < offset + size implies !in_ranges(block.free_list(), a) by {}
        }
        al
    }

    /// Gives a slice back to its block. A slice whose block is unknown is ignored.
    pub fn free_alloc(&mut self, allocation: &Allocation)
        requires
            old(self).wf(),
            allocation.spec_block() < old(self).blocks_of(allocation.spec_memory_type()).len()
                ==> old(self).is_live(allocation),
        ensures
            final(self).wf(),
            final(self).spec_block_count() == old(self).spec_block_count(),
            forall|t: u32|
                t != allocation.spec_memory_type() ==> final(self).blocks_of(t) == old(self).blocks_of(t),
            ({
                let t = allocation.spec_memory_type();
                let j = allocation.spec_block();
                let ob = old(self).blocks_of(t);
                let nb = final(self).blocks_of(t);
                &&& nb.len() == ob.len()
                &&& forall|k: int| 0 <= k < ob.len() && k != j ==> same_block(#[trigger] nb[k], ob[k])
                &&& j < ob.len() ==> {
                    &&& nb[j].spec_memory() == ob[j].spec_memory()
                    &&& nb[j].spec_size() == ob[j].spec_size()
                    &&& exists|i: int|
                        insert_pos(ob[j].free_list(), i, allocation.spec_offset()) && nb[j].free_list()
                            == merge_in(
                            ob[j].free_list(),
                            i,
                            FreeRange {
                                start: allocation.spec_offset() as u64,
                                end: (allocation.spec_offset() + allocation.spec_size()) as u64,
                            },
                        )
                    &&& forall|a: int|
                        in_ranges(nb[j].free_list(), a) <==> (in_ranges(ob[j].free_list(), a) || (
                        allocation.spec_offset() <= a < allocation.spec_offset() + allocation.spec_size()))
                    &&& total(nb[j].free_list()) == total(ob[j].free_list()) + allocation.spec_size()
                }
            }),
    {
        broadcast use vstd::std_specs::hash::group_hash_axioms;
        let t = allocation.memory_type;
        let j = allocation.block;
        let ghost ob = self.blocks_of(t);
        let ghost m0 = self.blocks@;
        let opt = self.blocks.remove(&t);
        match opt {
            None => {
                proof {
                    assert(self.blocks@ =~= m0);
                    assert(self.types@ == old(self).types@);
                    assert forall|u: u32| #[trigger] self.blocks_of(u) == old(self).blocks_of(u) by {}
                }
            },
            Some(mut bs) => {
                assert(bs@ == ob);
                if j < bs.len() {
                    proof {
                        assert(ob[j as int].wf());
                    }
                    bs[j].dealloc(allocation.offset, allocation.size);
                }
                let ghost bs_final = bs;
                self.blocks.insert(t, bs);
                proof {
                    assert(self.blocks@ =~= m0.insert(t, bs_final));
                    assert(self.blocks_of(t) == bs_final@);
                    assert forall|u: u32| u != t implies self.blocks_of(u) == old(self).blocks_of(u) by {}
                    lemma_block_count_same_len(m0, self.blocks@, self.types@, t);
                    assert forall|u: u32, k: int|
                        0 <= k < self.blocks_of(u).len() implies (#[trigger] self.blocks_of(u)[k]).wf() by {
                        if u == t {
                            assert(old(self).blocks_of(u)[k].wf());
                        }
                    }
                    assert forall|u: u32| self.blocks@.contains_key(u) <==> self.types@.contains(u) by {
                        assert(m0.contains_key(u) <==> self.types@.contains(u));
                    }
                }
            },
        }
    }
}

impl DeviceMemoryAllocator {
    /// Empties the allocator and returns the device memory of every block, for the caller
    /// to free through the driver.
    pub fn drain_memories(&mut self) -> (r: Vec<ash::vk::DeviceMemory>)
        requires
            old(self).wf(),
        ensures
            final(self).wf(),
            forall|t: u32| final(self).blocks_of(t).len() == 0,
            r@.len() == old(self).spec_block_count(),
            forall|t: u32, k: int|
                0 <= k < old(self).blocks_of(t).len() ==> r@.contains(
                    (#[trigger] old(self).blocks_of(t)[k]).spec_memory(),
                ),
    {
        broadcast use vstd::std_specs::hash::group_hash_axioms;
        let mut r: Vec<ash::vk::DeviceMemory> = Vec::new();
        let mut i: usize = 0;
        while i < self.types.len()
            invariant
                self.blocks@ == old(self).blocks@,
                self.types@ == old(self).types@,
                old(self).wf(),
                i <= self.types@.len(),
                r@.len() == block_count(self.blocks@, self.types@.take(i as int)),
                forall|x: int, k: int|
                    0 <= x < i && 0 <= k < self.blocks_of(self.types@[x]).len() ==> r@.contains(
                        (#[trigger] self.blocks_of(self.types@[x])[k]).spec_memory(),
                    ),
            decreases self.types@.len() - i,
        {
            let t = self.types[i];
            assert(self.types@.contains(t));
            let bs = self.blocks.get(&t);
            match bs {
                Some(bs) => {
                    let ghost r0 = r@;
                    let mut k: usize = 0;
                    while k < bs.len()
                        invariant
                            r@.len() == r0.len() + k,
                            k <= bs@.len(),
                            forall|q: int| 0 <= q < r0.len() ==> r@[q] == r0[q],
                            forall|q: int| 0 <= q < k ==> r@[r0.len() + q] == (#[trigger] bs@[q]).spec_memory(),
                        decreases bs@.len() - k,
                    {
                        r.push(bs[k].memory());
                        k = k + 1;
                    }
                    proof {
                        assert(self.types@.take(i + 1).drop_last() =~= self.types@.take(i as int));
                        assert(bs@ == self.blocks_of(t));
                        assert forall|x: int, q: int|
                            0 <= x < i + 1 && 0 <= q < self.blocks_of(self.types@[x]).len() implies r@.contains(
                                (#[trigger] self.blocks_of(self.types@[x])[q]).spec_memory(),
                            ) by {
                            if x < i {
                                let w = choose|w: int| 0 <= w < r0.len() && r0[w] == self.blocks_of(self.types@[x])[q].spec_memory();
                                assert(r@[w] == r0[w]);
                            } else {
                                assert(r@[r0.len() + q] == bs@[q].spec_memory());
                            }
                        }
                    }
                },
                None => {
                    proof {
                        assert(false);
                    }
                },
            }
            i = i + 1;
        }
        proof {
            assert(self.types@.take(i as int) =~= self.types@);
            assert forall|t: u32, k: int|
                0 <= k < old(self).blocks_of(t).len() implies r@.contains(
                    (#[trigger] old(self).blocks_of(t)[k]).spec_memory(),
                ) by {
                assert(old(self).blocks@.contains_key(t));
                assert(old(self).types@.contains(t));
                assert(self.types@.contains(t));
                let x = choose|x: int| 0 <= x < self.types@.len() && self.types@[x] == t;
                assert(self.blocks_of(self.types@[x])[k] == old(self).blocks_of(t)[k]);
            }
        }
        self.blocks.clear();
        self.types.clear();
        proof {
            assert forall|t: u32| !self.blocks@.contains_key(t) by {}
            assert(self.types@.len() == 0);
            assert forall|t: u32| self.blocks@.contains_key(t) <==> self.types@.contains(t) by {}
        }
        r
    }
}

/// Giving back a slice that `allocate` has just placed restores the allocator exactly:
/// every block of every memory type has the free list it had before.
pub proof fn law_free_undoes_allocate(
    before: DeviceMemoryAllocator,
    allocated: DeviceMemoryAllocator,
    freed: DeviceMemoryAllocator,
    t: u32,
    j: int,
    i: int,
    off: int,
    size: int,
)
    requires
        before.wf(),
        allocated.wf(),
        freed.wf(),
        size > 0,
        0 <= j < before.blocks_of(t).len(),
        0 <= i < before.blocks_of(t)[j].free_list().len(),
        before.blocks_of(t)[j].free_list()[i].start <= off,
        off + size <= before.blocks_of(t)[j].free_list()[i].end,
        forall|u: u32| u != t ==> allocated.blocks_of(u) == before.blocks_of(u),
        forall|u: u32| u != t ==> freed.blocks_of(u) == allocated.blocks_of(u),
        allocated.blocks_of(t).len() == before.blocks_of(t).len(),
        freed.blocks_of(t).len() == allocated.blocks_of(t).len(),
        forall|k: int|
            0 <= k < before.blocks_of(t).len() && k != j ==> same_block(
                #[trigger] allocated.blocks_of(t)[k],
                before.blocks_of(t)[k],
            ),
        forall|k: int|
            0 <= k < before.blocks_of(t).len() && k != j ==> same_block(
                #[trigger] freed.blocks_of(t)[k],
                allocated.blocks_of(t)[k],
            ),
        allocated.blocks_of(t)[j].spec_size() == before.blocks_of(t)[j].spec_size(),
        freed.blocks_of(t)[j].spec_size() == allocated.blocks_of(t)[j].spec_size(),
        freed.blocks_of(t)[j].spec_memory() == allocated.blocks_of(t)[j].spec_memory(),
        allocated.blocks_of(t)[j].spec_memory() == before.blocks_of(t)[j].spec_memory(),
        allocated.blocks_of(t)[j].free_list() == carve(before.blocks_of(t)[j].free_list(), i, off, size),
        forall|a: int|
            in_ranges(freed.blocks_of(t)[j].free_list(), a) <==> (in_ranges(
                allocated.blocks_of(t)[j].free_list(),
                a,
            ) || (off <= a < off + size)),
    ensures
        forall|u: u32| freed.blocks_of(u).len() == before.blocks_of(u).len(),
        forall|u: u32, k: int|
            0 <= k < before.blocks_of(u).len() ==> same_block(
                #[trigger] freed.blocks_of(u)[k],
                before.blocks_of(u)[k],
            ),
{
    let b0 = before.blocks_of(t)[j];
    let b2 = freed.blocks_of(t)[j];
    lemma_carve(b0.free_list(), b0.spec_size(), i, off, size);
    assert forall|a: int| in_ranges(b2.free_list(), a) <==> in_ranges(b0.free_list(), a) by {
        if off <= a < off + size {
            assert(b0.free_list()[i].start <= a < b0.free_list()[i].end);
        }
    }
    lemma_free_list_canonical(b2.free_list(), b0.free_list(), b0.spec_size());
    assert forall|u: u32, k: int|
        0 <= k < before.blocks_of(u).len() implies same_block(
            #[trigger] freed.blocks_of(u)[k],
            before.blocks_of(u)[k],
        ) by {
        if u == t && k != j {
            assert(same_block(allocated.blocks_of(t)[k], before.blocks_of(t)[k]));
        }
    }
}

/// Giving back a slice cut out of a block just obtained for it leaves that block whole
/// again, one free range over all of it, and every other block as it was.
pub proof fn law_free_undoes_allocate_in_new_block(
    before: DeviceMemoryAllocator,
    allocated: DeviceMemoryAllocator,
    freed: DeviceMemoryAllocator,
    t: u32,
    block_size: u64,
    size: int,
)
    requires
        before.wf(),
        allocated.wf(),
        freed.wf(),
        0 < size <= block_size,
        forall|u: u32| u != t ==> allocated.blocks_of(u) == before.blocks_of(u),
        forall|u: u32| u != t ==> freed.blocks_of(u) == allocated.blocks_of(u),
        allocated.blocks_of(t).len() == before.blocks_of(t).len() + 1,
        freed.blocks_of(t).len() == allocated.blocks_of(t).len(),
        forall|k: int|
            0 <= k < before.blocks_of(t).len() ==> same_block(
                #[trigger] allocated.blocks_of(t)[k],
                before.blocks_of(t)[k],
            ),
        forall|k: int|
            0 <= k < before.blocks_of(t).len() ==> same_block(
                #[trigger] freed.blocks_of(t)[k],
                allocated.blocks_of(t)[k],
            ),
        allocated.blocks_of(t)[before.blocks_of(t).len() as int].spec_size() == block_size,
        freed.blocks_of(t)[before.blocks_of(t).len() as int].spec_size() == block_size,
        allocated.blocks_of(t)[before.blocks_of(t).len() as int].free_list() == carve(
            seq![FreeRange { start: 0, end: block_size }],
            0,
            0,
            size,
        ),
        forall|a: int|
            in_ranges(freed.blocks_of(t)[before.blocks_of(t).len() as int].free_list(), a) <==> (
            in_ranges(allocated.blocks_of(t)[before.blocks_of(t).len() as int].free_list(), a) || (0
                <= a < size)),
    ensures
        freed.blocks_of(t)[before.blocks_of(t).len() as int].free_list() == seq![
            FreeRange { start: 0, end: block_size },
        ],
        forall|u: u32| u != t ==> freed.blocks_of(u) == before.blocks_of(u),
        forall|k: int|
            0 <= k < before.blocks_of(t).len() ==> same_block(
                #[trigger] freed.blocks_of(t)[k],
                before.blocks_of(t)[k],
            ),
{
    let n0 = before.blocks_of(t).len() as int;
    let whole = seq![FreeRange { start: 0, end: block_size }];
    let b2 = freed.blocks_of(t)[n0];
    assert(ranges_wf(whole, block_size as int));
    lemma_carve(whole, block_size as int, 0, 0, size);
    assert(b2.wf());
    assert forall|a: int| in_ranges(b2.free_list(), a) <==> in_ranges(whole, a) by {
        if 0 <= a < size {
            assert(whole[0].start <= a < whole[0].end);
        }
        if in_ranges(whole, a) {
            assert(0 <= a < block_size);
        }
    }
    lemma_free_list_canonical(b2.free_list(), whole, block_size as int);
}
} // verus!
