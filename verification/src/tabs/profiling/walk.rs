//! The visible lines of a call tree are the prefix traversal of the arena from the
//! roots through the children lists, skipping the children of collapsed nodes.
//!
//! A node's subtree is the run of deeper nodes that follows it; its children are the
//! first node of that run, then the node that follows each child's subtree, and so on.
use vstd::prelude::*;
use super::tree::{
    children_upto, depths_of, flags_of, is_ancestor, last_below, lemma_last_below, parent_spec,
    roots_upto, shown, visible_upto, Node,
};

verus! {

/// First index from `k` whose depth is at most `d`, or the length.
pub open spec fn scan_end(ds: Seq<usize>, d: int, k: int) -> int
    decreases ds.len() - k,
{
    if k >= ds.len() {
        ds.len() as int
    } else if ds[k] <= d {
        k
    } else {
        scan_end(ds, d, k + 1)
    }
}

/// End of the subtree of node `i`: the first later node that is not deeper.
pub open spec fn subtree_end(ds: Seq<usize>, i: int) -> int {
    scan_end(ds, ds[i] as int, i + 1)
}

proof fn lemma_scan_end(ds: Seq<usize>, d: int, k: int)
    requires
        0 <= k <= ds.len(),
    ensures
        k <= scan_end(ds, d, k) <= ds.len(),
        forall|l: int| k <= l < scan_end(ds, d, k) ==> ds[l] > d,
        scan_end(ds, d, k) < ds.len() ==> ds[scan_end(ds, d, k)] <= d,
    decreases ds.len() - k,
{
    if k < ds.len() && ds[k] > d {
        lemma_scan_end(ds, d, k + 1);
    }
}

proof fn lemma_subtree_end(ds: Seq<usize>, i: int)
    requires
        0 <= i < ds.len(),
    ensures
        i < subtree_end(ds, i) <= ds.len(),
        forall|l: int| i < l < subtree_end(ds, i) ==> ds[l] > ds[i],
        subtree_end(ds, i) < ds.len() ==> ds[subtree_end(ds, i)] <= ds[i],
{
    lemma_scan_end(ds, ds[i] as int, i + 1);
}

/// The descendants of `i` are the nodes of its subtree.
proof fn lemma_descendants(ds: Seq<usize>, i: int, k: int)
    requires
        0 <= i < k < ds.len(),
    ensures
        is_ancestor(ds, i, k) <==> k < subtree_end(ds, i),
{
    lemma_subtree_end(ds, i);
    let e = subtree_end(ds, i);
    if is_ancestor(ds, i, k) && k >= e {
        assert(ds[e] > ds[i]);
    }
}

/// `last_below` finds `j` when `j` is below `d` and nothing after it is.
proof fn lemma_last_below_is(ds: Seq<usize>, d: int, n: int, j: Option<int>)
    requires
        0 <= n <= ds.len(),
        match j {
            Some(j) => 0 <= j < n && ds[j] < d && forall|l: int| j < l < n ==> ds[l] >= d,
            None => forall|l: int| 0 <= l < n ==> ds[l] >= d,
        },
    ensures
        last_below(ds, d, n) == j,
{
    lemma_last_below(ds, d, n);
    match (last_below(ds, d, n), j) {
        (Some(a), Some(b)) => {
            if a < b {
                assert(ds[b] >= d);
            } else if a > b {
                assert(ds[a] >= d);
            }
        },
        (Some(a), None) => {
            assert(ds[a] >= d);
        },
        (None, Some(b)) => {
            assert(ds[b] >= d);
        },
        (None, None) => {},
    }
}

/// First position where the kids of `par` may start.
pub open spec fn lo_of(par: Option<int>) -> int {
    match par {
        Some(p) => p + 1,
        None => 0,
    }
}

/// Position where the kids of `par` end.
pub open spec fn hi_of(ds: Seq<usize>, par: Option<int>) -> int {
    match par {
        Some(p) => subtree_end(ds, p),
        None => ds.len() as int,
    }
}

/// `par` is a node of the tree, or `None` for the roots.
pub open spec fn valid_par(ds: Seq<usize>, par: Option<int>) -> bool {
    match par {
        Some(p) => 0 <= p < ds.len(),
        None => true,
    }
}

proof fn lemma_kid_range(ds: Seq<usize>, par: Option<int>, c: int)
    requires
        valid_par(ds, par),
        0 <= c < ds.len(),
        parent_spec(ds, c) == par,
    ensures
        lo_of(par) <= c < hi_of(ds, par),
{
    lemma_last_below(ds, ds[c] as int, c);
    if let Some(p) = par {
        assert(is_ancestor(ds, p, c));
        lemma_descendants(ds, p, c);
    }
}

proof fn lemma_first_kid(ds: Seq<usize>, par: Option<int>)
    requires
        valid_par(ds, par),
        lo_of(par) < hi_of(ds, par),
    ensures
        parent_spec(ds, lo_of(par)) == par,
{
    match par {
        Some(p) => {
            lemma_subtree_end(ds, p);
            lemma_last_below_is(ds, ds[p + 1] as int, p + 1, Some(p));
        },
        None => {
            lemma_last_below_is(ds, ds[0] as int, 0, None);
        },
    }
}

proof fn lemma_next_kid(ds: Seq<usize>, par: Option<int>, c: int)
    requires
        valid_par(ds, par),
        0 <= c < ds.len(),
        parent_spec(ds, c) == par,
        subtree_end(ds, c) < hi_of(ds, par),
    ensures
        parent_spec(ds, subtree_end(ds, c)) == par,
{
    let e = subtree_end(ds, c);
    lemma_subtree_end(ds, c);
    lemma_last_below(ds, ds[c] as int, c);
    match par {
        Some(p) => {
            lemma_subtree_end(ds, p);
            assert(ds[e] > ds[p]);
            assert forall|l: int| p < l < e implies ds[l] >= ds[e] by {
                if l < c {
                    assert(ds[l] >= ds[c]);
                }
            }
            lemma_last_below_is(ds, ds[e] as int, e, Some(p));
        },
        None => {
            assert forall|l: int| 0 <= l < e implies ds[l] >= ds[e] by {
                if l < c {
                    assert(ds[l] >= ds[c]);
                }
            }
            lemma_last_below_is(ds, ds[e] as int, e, None);
        },
    }
}

proof fn lemma_no_kid_inside(ds: Seq<usize>, par: Option<int>, c: int, k: int)
    requires
        valid_par(ds, par),
        0 <= c < k < subtree_end(ds, c),
        k < ds.len(),
        parent_spec(ds, c) == par,
    ensures
        parent_spec(ds, k) != par,
{
    lemma_subtree_end(ds, c);
    lemma_last_below(ds, ds[k] as int, k);
    lemma_last_below(ds, ds[c] as int, c);
    assert(ds[c] < ds[k]);
}

/// An ancestor of a node of a kid's subtree that lies after the parent is in the kid's
/// subtree.
proof fn lemma_ancestor_in_kid(ds: Seq<usize>, par: Option<int>, c: int, a: int, k: int)
    requires
        valid_par(ds, par),
        0 <= c <= k < subtree_end(ds, c),
        k < ds.len(),
        parent_spec(ds, c) == par,
        lo_of(par) <= a,
        is_ancestor(ds, a, k),
    ensures
        a >= c,
{
    lemma_last_below(ds, ds[c] as int, c);
    if a < c {
        assert(ds[c] > ds[a]);
    }
}

proof fn lemma_kid_inside_parent(ds: Seq<usize>, par: Option<int>, c: int)
    requires
        valid_par(ds, par),
        0 <= c < ds.len(),
        parent_spec(ds, c) == par,
    ensures
        subtree_end(ds, c) <= hi_of(ds, par),
{
    lemma_kid_range(ds, par, c);
    lemma_subtree_end(ds, c);
    if let Some(p) = par {
        lemma_subtree_end(ds, p);
        let e = subtree_end(ds, p);
        lemma_last_below(ds, ds[c] as int, c);
        if e < subtree_end(ds, c) {
            assert(ds[e] > ds[c]);
        }
    }
}

/// The kids of `par` in `[lo, hi)`, in order (the children of a node, or the roots).
pub open spec fn kids_from(ds: Seq<usize>, par: Option<int>, lo: int, hi: int) -> Seq<usize>
    decreases hi - lo,
{
    if hi <= lo {
        Seq::empty()
    } else if parent_spec(ds, hi - 1) == par {
        kids_from(ds, par, lo, hi - 1).push((hi - 1) as usize)
    } else {
        kids_from(ds, par, lo, hi - 1)
    }
}

proof fn lemma_kids_concat(ds: Seq<usize>, par: Option<int>, lo: int, mid: int, hi: int)
    requires
        lo <= mid <= hi,
    ensures
        kids_from(ds, par, lo, mid) + kids_from(ds, par, mid, hi) == kids_from(ds, par, lo, hi),
    decreases hi - mid,
{
    if hi > mid {
        lemma_kids_concat(ds, par, lo, mid, hi - 1);
        if parent_spec(ds, hi - 1) == par {
            assert(kids_from(ds, par, lo, mid) + kids_from(ds, par, mid, hi) =~= (kids_from(
                ds,
                par,
                lo,
                mid,
            ) + kids_from(ds, par, mid, hi - 1)).push((hi - 1) as usize));
        }
    } else {
        assert(kids_from(ds, par, lo, mid) + kids_from(ds, par, mid, hi) =~= kids_from(ds, par, lo, mid));
    }
}

proof fn lemma_kids_none(ds: Seq<usize>, par: Option<int>, lo: int, hi: int)
    requires
        forall|k: int| lo <= k < hi ==> parent_spec(ds, k) != par,
    ensures
        kids_from(ds, par, lo, hi) == Seq::<usize>::empty(),
    decreases hi - lo,
{
    if hi > lo {
        lemma_kids_none(ds, par, lo, hi - 1);
    }
}

proof fn lemma_kids_of_arena(ds: Seq<usize>, p: int, n: int)
    ensures
        children_upto(ds, p, n) == kids_from(ds, Some(p), 0, n),
        roots_upto(ds, n) == kids_from(ds, None, 0, n),
    decreases n,
{
    if n > 0 {
        lemma_kids_of_arena(ds, p, n - 1);
    }
}

/// No collapsed node at or after `base` is an ancestor of `k`.
pub open spec fn free_from(ds: Seq<usize>, fl: Seq<bool>, base: int, k: int) -> bool {
    forall|a: int| base <= a && #[trigger] is_ancestor(ds, a, k) ==> !fl[a]
}

/// The nodes of `[lo, hi)` with no collapsed ancestor at or after `base`, in order.
pub open spec fn filt(ds: Seq<usize>, fl: Seq<bool>, base: int, lo: int, hi: int) -> Seq<usize>
    decreases hi - lo,
{
    if hi <= lo {
        Seq::empty()
    } else if free_from(ds, fl, base, hi - 1) {
        filt(ds, fl, base, lo, hi - 1).push((hi - 1) as usize)
    } else {
        filt(ds, fl, base, lo, hi - 1)
    }
}

proof fn lemma_filt_concat(ds: Seq<usize>, fl: Seq<bool>, base: int, lo: int, mid: int, hi: int)
    requires
        lo <= mid <= hi,
    ensures
        filt(ds, fl, base, lo, mid) + filt(ds, fl, base, mid, hi) == filt(ds, fl, base, lo, hi),
    decreases hi - mid,
{
    if hi > mid {
        lemma_filt_concat(ds, fl, base, lo, mid, hi - 1);
        if free_from(ds, fl, base, hi - 1) {
            assert(filt(ds, fl, base, lo, mid) + filt(ds, fl, base, mid, hi) =~= (filt(
                ds,
                fl,
                base,
                lo,
                mid,
            ) + filt(ds, fl, base, mid, hi - 1)).push((hi - 1) as usize));
        }
    } else {
        assert(filt(ds, fl, base, lo, mid) + filt(ds, fl, base, mid, hi) =~= filt(ds, fl, base, lo, mid));
    }
}

proof fn lemma_filt_base(ds: Seq<usize>, fl: Seq<bool>, b1: int, b2: int, lo: int, hi: int)
    requires
        forall|k: int| lo <= k < hi ==> free_from(ds, fl, b1, k) == free_from(ds, fl, b2, k),
    ensures
        filt(ds, fl, b1, lo, hi) == filt(ds, fl, b2, lo, hi),
    decreases hi - lo,
{
    if hi > lo {
        lemma_filt_base(ds, fl, b1, b2, lo, hi - 1);
    }
}

proof fn lemma_filt_none(ds: Seq<usize>, fl: Seq<bool>, base: int, lo: int, hi: int)
    requires
        forall|k: int| lo <= k < hi ==> !free_from(ds, fl, base, k),
    ensures
        filt(ds, fl, base, lo, hi) == Seq::<usize>::empty(),
    decreases hi - lo,
{
    if hi > lo {
        lemma_filt_none(ds, fl, base, lo, hi - 1);
    }
}

proof fn lemma_filt_visible(ds: Seq<usize>, fl: Seq<bool>, n: int)
    ensures
        visible_upto(ds, fl, n) == filt(ds, fl, 0, 0, n),
    decreases n,
{
    if n > 0 {
        lemma_filt_visible(ds, fl, n - 1);
        assert(shown(ds, fl, n - 1) == free_from(ds, fl, 0, n - 1));
    }
}

/// Prefix traversal from node `i` through the children lists, the children of a
/// collapsed node skipped.
pub open spec fn walk(ns: Seq<Node>, i: int) -> Seq<usize>
    decreases ns.len() - i, 2int, 0int,
{
    if 0 <= i < ns.len() {
        seq![i as usize] + if ns[i].collapsed {
            Seq::empty()
        } else {
            walk_list(ns, ns[i].children@, i + 1)
        }
    } else {
        Seq::empty()
    }
}

/// Prefix traversal of the subtrees of the nodes `cs`, in order; indices below `lo`
/// end it.
pub open spec fn walk_list(ns: Seq<Node>, cs: Seq<usize>, lo: int) -> Seq<usize>
    decreases ns.len() - lo + 1, 1int, cs.len(),
{
    if cs.len() == 0 {
        Seq::empty()
    } else if lo <= cs[0] < ns.len() {
        walk(ns, cs[0] as int) + walk_list(ns, cs.drop_first(), lo)
    } else {
        Seq::empty()
    }
}

/// Each node's children are those the depths determine.
pub open spec fn children_ok(ns: Seq<Node>) -> bool {
    forall|i: int|
        0 <= i < ns.len() ==> (#[trigger] ns[i]).children@ == children_upto(
            depths_of(ns),
            i,
            ns.len() as int,
        )
}

proof fn lemma_walk(ns: Seq<Node>, i: int)
    requires
        children_ok(ns),
        ns.len() <= usize::MAX,
        0 <= i < ns.len(),
    ensures
        walk(ns, i) == filt(depths_of(ns), flags_of(ns), i, i, subtree_end(depths_of(ns), i)),
    decreases ns.len() - i, 2int, 0int,
{
    let ds = depths_of(ns);
    let fl = flags_of(ns);
    let n = ns.len() as int;
    let e = subtree_end(ds, i);
    lemma_subtree_end(ds, i);
    assert(fl[i] == ns[i].collapsed);
    lemma_filt_concat(ds, fl, i, i, i + 1, e);
    assert(free_from(ds, fl, i, i));
    assert(filt(ds, fl, i, i, i) == Seq::<usize>::empty());
    assert(filt(ds, fl, i, i, i + 1) =~= seq![i as usize]);
    if ns[i].collapsed {
        assert forall|k: int| i + 1 <= k < e implies !free_from(ds, fl, i, k) by {
            lemma_descendants(ds, i, k);
            assert(is_ancestor(ds, i, k));
        }
        lemma_filt_none(ds, fl, i, i + 1, e);
        assert(walk(ns, i) =~= seq![i as usize]);
        assert(filt(ds, fl, i, i, e) =~= seq![i as usize]);
    } else {
        lemma_kids_of_arena(ds, i, n);
        lemma_kids_concat(ds, Some(i), 0, i + 1, n);
        assert forall|k: int| 0 <= k < i + 1 implies parent_spec(ds, k) != Some(i) by {
            if parent_spec(ds, k) == Some(i) {
                lemma_kid_range(ds, Some(i), k);
            }
        }
        lemma_kids_none(ds, Some(i), 0, i + 1);
        assert(ns[i].children@ =~= kids_from(ds, Some(i), i + 1, n));
        if i + 1 < e {
            lemma_first_kid(ds, Some(i));
        }
        lemma_walk_kids(ns, Some(i), i + 1);
        assert forall|k: int| i + 1 <= k < e implies free_from(ds, fl, i, k) == free_from(
            ds,
            fl,
            i + 1,
            k,
        ) by {}
        lemma_filt_base(ds, fl, i, i + 1, i + 1, e);
    }
}

proof fn lemma_walk_kids(ns: Seq<Node>, par: Option<int>, c: int)
    requires
        children_ok(ns),
        ns.len() <= usize::MAX,
        valid_par(depths_of(ns), par),
        lo_of(par) <= c <= hi_of(depths_of(ns), par),
        c == hi_of(depths_of(ns), par) || (c < ns.len() && parent_spec(depths_of(ns), c) == par),
    ensures
        walk_list(ns, kids_from(depths_of(ns), par, c, ns.len() as int), lo_of(par)) == filt(
            depths_of(ns),
            flags_of(ns),
            lo_of(par),
            c,
            hi_of(depths_of(ns), par),
        ),
    decreases ns.len() - lo_of(par) + 1, 1int, ns.len() - c,
{
    let ds = depths_of(ns);
    let fl = flags_of(ns);
    let n = ns.len() as int;
    let lo = lo_of(par);
    let hi = hi_of(ds, par);
    if let Some(p) = par {
        lemma_subtree_end(ds, p);
    }
    if c == hi {
        assert forall|k: int| c <= k < n implies parent_spec(ds, k) != par by {
            if parent_spec(ds, k) == par {
                lemma_kid_range(ds, par, k);
            }
        }
        lemma_kids_none(ds, par, c, n);
    } else {
        let e = subtree_end(ds, c);
        lemma_subtree_end(ds, c);
        lemma_kid_inside_parent(ds, par, c);
        lemma_kids_concat(ds, par, c, c + 1, n);
        lemma_kids_concat(ds, par, c + 1, e, n);
        assert forall|k: int| c + 1 <= k < e implies parent_spec(ds, k) != par by {
            lemma_no_kid_inside(ds, par, c, k);
        }
        lemma_kids_none(ds, par, c + 1, e);
        assert(kids_from(ds, par, c, c) == Seq::<usize>::empty());
        assert(kids_from(ds, par, c, c + 1) =~= seq![c as usize]);
        let rest = kids_from(ds, par, e, n);
        let cs = kids_from(ds, par, c, n);
        assert(cs =~= seq![c as usize] + rest);
        assert(cs[0] == c);
        assert(cs.drop_first() =~= rest);
        lemma_walk(ns, c);
        if e < hi {
            lemma_next_kid(ds, par, c);
        }
        lemma_walk_kids(ns, par, e);
        assert forall|k: int| c <= k < e implies free_from(ds, fl, c, k) == free_from(ds, fl, lo, k) by {
            assert forall|a: int| lo <= a && #[trigger] is_ancestor(ds, a, k) implies a >= c by {
                lemma_ancestor_in_kid(ds, par, c, a, k);
            }
        }
        lemma_filt_base(ds, fl, c, lo, c, e);
        lemma_filt_concat(ds, fl, lo, c, e, hi);
    }
}

/// The visible lines are the prefix traversal of the arena from the roots through the
/// children lists, skipping the children of collapsed nodes.
pub proof fn law_visible_is_prefix_walk(ns: Seq<Node>, roots: Seq<usize>)
    requires
        ns.len() <= usize::MAX,
        super::tree::arena_ok(ns, roots),
    ensures
        walk_list(ns, roots, 0) == visible_upto(depths_of(ns), flags_of(ns), ns.len() as int),
{
    let ds = depths_of(ns);
    let n = ns.len() as int;
    lemma_kids_of_arena(ds, 0, n);
    if 0 < n {
        lemma_first_kid(ds, None);
    }
    lemma_walk_kids(ns, None, 0);
    lemma_filt_visible(ds, flags_of(ns), n);
}

} // verus!
