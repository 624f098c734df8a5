//! Call-tree view shared by the boxes of the profiling tab.
//!
//! Nodes arrive in one batch, in prefix order (a parent always before its children).
//! [`CallTree::load`] rebuilds the arena with a stack of ancestors indexed by depth.
//! Each node is then displayed on a line, with the children of collapsed nodes hidden.
//!
//! The model: the depths of the batch determine the tree. The parent of node `i` is the
//! last node before it whose depth is smaller; its ancestors are the nodes `a < i` whose
//! depth is smaller than every depth in `(a, i]`. Prefix order is index order, so the
//! visible lines are the nodes none of whose ancestors is collapsed, in index order.
use vstd::prelude::*;
use crate::log_parser::ProfileNode;
use crate::text::{
    decimal, from_chars, pad_right, push_all, spaces, split_str, split_str_spec, to_chars,
    to_decimal,
};

verus! {

/// A node of the call tree. `children` refers to other nodes by their index in the
/// arena.
pub struct Node {
    pub depth: usize,
    pub name: String,
    pub total_ns: u128,
    pub count: u32,
    pub parent: Option<usize>,
    pub children: Vec<usize>,
    /// `true`: the subtree is folded (children hidden).
    pub collapsed: bool,
}

impl Node {
    /// Whether the node has at least one child.
    pub fn has_children(&self) -> (r: bool)
        ensures
            r == (self.children@.len() > 0),
    {
        self.children.len() > 0
    }
}

/// The last index before `n` whose depth is below `d`.
pub open spec fn last_below(ds: Seq<usize>, d: int, n: int) -> Option<int>
    decreases n,
{
    if n <= 0 {
        None
    } else if ds[n - 1] < d {
        Some(n - 1)
    } else {
        last_below(ds, d, n - 1)
    }
}

/// The parent of node `i`: the last node before it with a smaller depth.
pub open spec fn parent_spec(ds: Seq<usize>, i: int) -> Option<int> {
    last_below(ds, ds[i] as int, i)
}

/// `a` is a proper ancestor of `i`: every node in `(a, i]` is deeper than `a`.
pub open spec fn is_ancestor(ds: Seq<usize>, a: int, i: int) -> bool {
    &&& 0 <= a < i < ds.len()
    &&& forall|l: int| a < l <= i ==> ds[a] < #[trigger] ds[l]
}

/// The children of `p` among the first `n` nodes, in order.
pub open spec fn children_upto(ds: Seq<usize>, p: int, n: int) -> Seq<usize>
    decreases n,
{
    if n <= 0 {
        Seq::empty()
    } else if parent_spec(ds, n - 1) == Some(p) {
        children_upto(ds, p, n - 1).push((n - 1) as usize)
    } else {
        children_upto(ds, p, n - 1)
    }
}

/// The roots among the first `n` nodes, in order.
pub open spec fn roots_upto(ds: Seq<usize>, n: int) -> Seq<usize>
    decreases n,
{
    if n <= 0 {
        Seq::empty()
    } else if parent_spec(ds, n - 1) is None {
        roots_upto(ds, n - 1).push((n - 1) as usize)
    } else {
        roots_upto(ds, n - 1)
    }
}

/// Node `i` is displayed: none of its ancestors is collapsed.
pub open spec fn shown(ds: Seq<usize>, fl: Seq<bool>, i: int) -> bool {
    forall|a: int| #[trigger] is_ancestor(ds, a, i) ==> !fl[a]
}

/// The displayed nodes among the first `n`, in display order.
pub open spec fn visible_upto(ds: Seq<usize>, fl: Seq<bool>, n: int) -> Seq<usize>
    decreases n,
{
    if n <= 0 {
        Seq::empty()
    } else if shown(ds, fl, n - 1) {
        visible_upto(ds, fl, n - 1).push((n - 1) as usize)
    } else {
        visible_upto(ds, fl, n - 1)
    }
}

pub open spec fn depths_of(nodes: Seq<Node>) -> Seq<usize> {
    nodes.map_values(|n: Node| n.depth)
}

pub open spec fn flags_of(nodes: Seq<Node>) -> Seq<bool> {
    nodes.map_values(|n: Node| n.collapsed)
}

pub open spec fn opt_index(o: Option<int>) -> Option<usize> {
    match o {
        Some(j) => Some(j as usize),
        None => None,
    }
}

/// The links of the arena are those the depths determine.
pub open spec fn arena_ok(nodes: Seq<Node>, roots: Seq<usize>) -> bool {
    let ds = depths_of(nodes);
    &&& forall|i: int|
        0 <= i < nodes.len() ==> (#[trigger] nodes[i]).parent == opt_index(parent_spec(ds, i))
    &&& forall|i: int|
        0 <= i < nodes.len() ==> (#[trigger] nodes[i]).children@ == children_upto(
            ds,
            i,
            nodes.len() as int,
        )
    &&& roots == roots_upto(ds, nodes.len() as int)
}

/// The largest duration of the tree (0 when empty).
pub open spec fn max_total_of(nodes: Seq<Node>) -> u128
    decreases nodes.len(),
{
    if nodes.len() == 0 {
        0
    } else if nodes.last().total_ns > max_total_of(nodes.drop_last()) {
        nodes.last().total_ns
    } else {
        max_total_of(nodes.drop_last())
    }
}

/// Names of the collapsed nodes, in order.
pub open spec fn collapsed_names(nodes: Seq<Node>) -> Seq<Seq<char>>
    decreases nodes.len(),
{
    if nodes.len() == 0 {
        Seq::empty()
    } else if nodes.last().collapsed {
        collapsed_names(nodes.drop_last()).push(nodes.last().name@)
    } else {
        collapsed_names(nodes.drop_last())
    }
}

/// `nodes` are the nodes of batch `batch`, loaded into a tree whose former nodes were
/// `before`: a node starts collapsed when a collapsed node of the same name was there.
pub open spec fn loaded_from(nodes: Seq<Node>, before: Seq<Node>, batch: Seq<ProfileNode>) -> bool {
    &&& nodes.len() == batch.len()
    &&& forall|i: int|
        0 <= i < nodes.len() ==> {
            &&& (#[trigger] nodes[i]).depth == batch[i].depth
            &&& nodes[i].name@ == batch[i].name@
            &&& nodes[i].total_ns == batch[i].dur_us
            &&& nodes[i].count == batch[i].count
            &&& nodes[i].collapsed == collapsed_names(before).contains(batch[i].name@)
        }
}

proof fn lemma_max_total_same(a: Seq<Node>, b: Seq<Node>)
    requires
        a.len() == b.len(),
        forall|i: int| 0 <= i < a.len() ==> (#[trigger] a[i]).total_ns == b[i].total_ns,
    ensures
        max_total_of(a) == max_total_of(b),
    decreases a.len(),
{
    if a.len() > 0 {
        lemma_max_total_same(a.drop_last(), b.drop_last());
    }
}

/// `b` is `a` after loading `batch`: the tree of the batch, the folding kept by name,
/// the cursor clamped to the visible lines.
pub open spec fn load_result(a: CallTree, b: CallTree, batch: Seq<ProfileNode>) -> bool {
    &&& b.wf()
    &&& loaded_from(b.spec_nodes(), a.spec_nodes(), batch)
    &&& b.spec_cursor() == (if b.visible_spec().len() == 0 {
        0
    } else if a.spec_cursor() < b.visible_spec().len() {
        a.spec_cursor() as int
    } else {
        b.visible_spec().len() - 1
    })
}

/// The same nodes, field by field.
pub open spec fn same_nodes(a: Seq<Node>, b: Seq<Node>) -> bool {
    &&& a.len() == b.len()
    &&& forall|i: int|
        0 <= i < a.len() ==> {
            &&& (#[trigger] a[i]).depth == b[i].depth
            &&& a[i].name@ == b[i].name@
            &&& a[i].total_ns == b[i].total_ns
            &&& a[i].count == b[i].count
            &&& a[i].parent == b[i].parent
            &&& a[i].children@ == b[i].children@
            &&& a[i].collapsed == b[i].collapsed
        }
}

/// The cursor designates a visible line, or is 0 when there is none.
pub open spec fn cursor_ok(c: usize, n: nat) -> bool {
    if n == 0 {
        c == 0
    } else {
        c < n
    }
}

pub proof fn lemma_last_below(ds: Seq<usize>, d: int, n: int)
    requires
        n <= ds.len(),
    ensures
        match last_below(ds, d, n) {
            Some(j) => 0 <= j < n && ds[j] < d && forall|l: int| j < l < n ==> ds[l] >= d,
            None => forall|l: int| 0 <= l < n ==> ds[l] >= d,
        },
    decreases n,
{
    if n > 0 {
        lemma_last_below(ds, d, n - 1);
    }
}

spec fn on_stack(ds: Seq<usize>, j: int, n: int) -> bool {
    forall|l: int| j < l < n ==> ds[j] < #[trigger] ds[l]
}

/// The stack of the construction after `n` nodes: the ancestors of node `n - 1` and
/// itself, by increasing index and depth.
spec fn stack_ok(ds: Seq<usize>, stk: Seq<usize>, n: int) -> bool {
    &&& forall|k: int| 0 <= k < stk.len() ==> #[trigger] stk[k] < n
    &&& forall|k1: int, k2: int|
        0 <= k1 < k2 < stk.len() ==> #[trigger] stk[k1] < #[trigger] stk[k2] && ds[stk[k1] as int]
            < ds[stk[k2] as int]
    &&& forall|k: int| 0 <= k < stk.len() ==> on_stack(ds, #[trigger] stk[k] as int, n)
    &&& forall|j: int|
        0 <= j < n && on_stack(ds, j, n) ==> exists|k: int| 0 <= k < stk.len() && #[trigger] stk[k] == j
}

proof fn lemma_stack_step(ds: Seq<usize>, stk: Seq<usize>, n: int, keep: int)
    requires
        0 <= n < ds.len(),
        n < usize::MAX,
        stack_ok(ds, stk, n),
        0 <= keep <= stk.len(),
        forall|k: int| keep <= k < stk.len() ==> ds[#[trigger] stk[k] as int] >= ds[n],
        keep > 0 ==> ds[stk[keep - 1] as int] < ds[n],
    ensures
        parent_spec(ds, n) == (if keep == 0 {
            None::<int>
        } else {
            Some(stk[keep - 1] as int)
        }),
        stack_ok(ds, stk.take(keep).push(n as usize), n + 1),
{
    let d = ds[n] as int;
    lemma_last_below(ds, d, n);
    let r = last_below(ds, d, n);
    if keep == 0 {
        if let Some(j) = r {
            assert(on_stack(ds, j, n));
            let k = choose|k: int| 0 <= k < stk.len() && #[trigger] stk[k] == j;
            assert(ds[stk[k] as int] >= d);
        }
    } else {
        let top = stk[keep - 1] as int;
        assert(top < n);
        match r {
            Some(j) => {
                if j > top {
                    assert(on_stack(ds, j, n));
                    let k = choose|k: int| 0 <= k < stk.len() && #[trigger] stk[k] == j;
                    if k < keep - 1 {
                        assert(stk[k] < stk[keep - 1]);
                    }
                    assert(ds[stk[k] as int] >= d);
                } else if j < top {
                    assert(ds[top] >= d);
                }
            },
            None => {
                assert(ds[top] >= d);
            },
        }
    }
    let s1 = stk.take(keep).push(n as usize);
    let n1 = n + 1;
    assert(s1.len() == keep + 1);
    assert(s1[keep] == n);
    assert(forall|k: int| 0 <= k < keep ==> s1[k] == stk[k]);
    assert forall|k1: int, k2: int| 0 <= k1 < k2 < s1.len() implies #[trigger] s1[k1] < #[trigger] s1[k2]
        && ds[s1[k1] as int] < ds[s1[k2] as int] by {
        if k2 == keep {
            if k1 < keep - 1 {
                assert(stk[k1] < stk[keep - 1]);
            }
        } else {
            assert(stk[k1] < stk[k2]);
        }
    }
    assert forall|k: int| 0 <= k < s1.len() implies on_stack(ds, #[trigger] s1[k] as int, n1) by {
        if k < keep {
            assert(on_stack(ds, stk[k] as int, n));
            if k < keep - 1 {
                assert(stk[k] < stk[keep - 1]);
            }
            assert forall|l: int| s1[k] < l < n1 implies ds[s1[k] as int] < #[trigger] ds[l] by {
                if l < n {
                    assert(ds[stk[k] as int] < ds[l]);
                }
            }
        }
    }
    assert forall|j: int| 0 <= j < n1 && #[trigger] on_stack(ds, j, n1) implies exists|k: int|
        0 <= k < s1.len() && #[trigger] s1[k] == j by {
        if j == n {
            assert(s1[keep] == j);
        } else {
            assert(on_stack(ds, j, n));
            let k = choose|k: int| 0 <= k < stk.len() && #[trigger] stk[k] == j;
            assert(ds[j] < ds[n]);
            if k >= keep {
                assert(ds[stk[k] as int] >= ds[n]);
            }
            assert(s1[k] == j);
        }
    }
}

proof fn lemma_parent_before(ds: Seq<usize>, m: int)
    requires
        0 <= m < ds.len(),
    ensures
        match parent_spec(ds, m) {
            Some(j) => 0 <= j < m,
            None => true,
        },
{
    lemma_last_below(ds, ds[m] as int, m);
}

proof fn lemma_children_upto_early(ds: Seq<usize>, p: int, n: int)
    requires
        0 <= p,
        n <= p + 1,
        n <= ds.len(),
    ensures
        children_upto(ds, p, n) == Seq::<usize>::empty(),
    decreases n,
{
    if n > 0 {
        lemma_parent_before(ds, n - 1);
        lemma_children_upto_early(ds, p, n - 1);
    }
}

/// All nodes before `i` that are collapsed hide nothing at or after `i`.
spec fn boundary(ds: Seq<usize>, fl: Seq<bool>, i: int) -> bool {
    forall|a: int, k: int|
        0 <= a < i <= k < ds.len() && #[trigger] is_ancestor(ds, a, k) ==> !fl[a]
}

/// The visible nodes of an arena, in display order.
fn visible_of(nodes: &Vec<Node>) -> (r: Vec<usize>)
    ensures
        r@ == visible_upto(depths_of(nodes@), flags_of(nodes@), nodes@.len() as int),
{
    let ghost ds = depths_of(nodes@);
    let ghost fl = flags_of(nodes@);
    let n = nodes.len();
    let mut out: Vec<usize> = Vec::new();
    let mut i: usize = 0;
    while i < n
        invariant
            n == nodes@.len(),
            ds == depths_of(nodes@),
            fl == flags_of(nodes@),
            ds.len() == n,
            fl.len() == n,
            i <= n,
            out@ == visible_upto(ds, fl, i as int),
            boundary(ds, fl, i as int),
        decreases n - i,
    {
        assert(shown(ds, fl, i as int));
        out.push(i);
        assert(out@ == visible_upto(ds, fl, i + 1));
        if nodes[i].collapsed {
            let d = nodes[i].depth;
            let start = i;
            i = i + 1;
            while i < n && nodes[i].depth > d
                invariant
                    n == nodes@.len(),
                    ds == depths_of(nodes@),
                    fl == flags_of(nodes@),
                    ds.len() == n,
                    fl.len() == n,
                    start < i <= n,
                    d == ds[start as int],
                    fl[start as int],
                    boundary(ds, fl, start as int),
                    forall|m: int| start < m < i ==> ds[m] > d,
                    out@ == visible_upto(ds, fl, i as int),
                decreases n - i,
            {
                assert(is_ancestor(ds, start as int, i as int));
                i = i + 1;
            }
            assert forall|a: int, k: int|
                0 <= a < i <= k < ds.len() && #[trigger] is_ancestor(ds, a, k) implies !fl[a] by {
                if a > start {
                    assert(ds[a] > d);
                    assert(ds[i as int] <= d);
                } else if a == start {
                    assert(ds[i as int] <= d);
                }
            }
        } else {
            i = i + 1;
        }
    }
    out
}



/// The visible nodes are increasing indices below `n`, each of them shown.
pub proof fn lemma_visible_props(ds: Seq<usize>, fl: Seq<bool>, n: int)
    requires
        0 <= n <= ds.len(),
        ds.len() <= usize::MAX,
    ensures
        visible_upto(ds, fl, n).len() <= n,
        forall|k: int|
            0 <= k < visible_upto(ds, fl, n).len() ==> #[trigger] visible_upto(ds, fl, n)[k] < n
                && shown(ds, fl, visible_upto(ds, fl, n)[k] as int),
        forall|k1: int, k2: int|
            0 <= k1 < k2 < visible_upto(ds, fl, n).len() ==> #[trigger] visible_upto(ds, fl, n)[k1]
                < #[trigger] visible_upto(ds, fl, n)[k2],
    decreases n,
{
    if n > 0 {
        lemma_visible_props(ds, fl, n - 1);
        let a = visible_upto(ds, fl, n - 1);
        if shown(ds, fl, n - 1) {
            let b = a.push((n - 1) as usize);
            assert(b[a.len() as int] == n - 1);
            assert(forall|k: int| 0 <= k < a.len() ==> b[k] == a[k]);
        }
    }
}

/// The visible nodes among the first `m` are a prefix of those among the first `n`;
/// the others are at least `m`.
proof fn lemma_visible_prefix(ds: Seq<usize>, fl: Seq<bool>, m: int, n: int)
    requires
        0 <= m <= n <= ds.len(),
        ds.len() <= usize::MAX,
    ensures
        visible_upto(ds, fl, m).len() <= visible_upto(ds, fl, n).len(),
        visible_upto(ds, fl, n).take(visible_upto(ds, fl, m).len() as int) == visible_upto(
            ds,
            fl,
            m,
        ),
        forall|k: int|
            visible_upto(ds, fl, m).len() <= k < visible_upto(ds, fl, n).len()
                ==> #[trigger] visible_upto(ds, fl, n)[k] >= m,
    decreases n - m,
{
    if n > m {
        lemma_visible_prefix(ds, fl, m, n - 1);
        let a = visible_upto(ds, fl, n - 1);
        let b = visible_upto(ds, fl, n);
        let l = visible_upto(ds, fl, m).len() as int;
        if shown(ds, fl, n - 1) {
            assert(b.take(l) =~= a.take(l));
            assert(b[a.len() as int] == n - 1);
            assert(forall|k: int| 0 <= k < a.len() ==> b[k] == a[k]);
        } else {
            assert(b =~= a);
        }
    } else {
        assert(visible_upto(ds, fl, n).take(visible_upto(ds, fl, m).len() as int)
            =~= visible_upto(ds, fl, m));
    }
}

/// The visible nodes up to the one at position `c` are the first `c + 1`.
proof fn lemma_visible_position(ds: Seq<usize>, fl: Seq<bool>, n: int, c: int)
    requires
        0 <= n <= ds.len(),
        ds.len() <= usize::MAX,
        0 <= c < visible_upto(ds, fl, n).len(),
    ensures
        visible_upto(ds, fl, visible_upto(ds, fl, n)[c] + 1) == visible_upto(ds, fl, n).take(c + 1),
{
    let v = visible_upto(ds, fl, n);
    let j = v[c] as int;
    lemma_visible_props(ds, fl, n);
    lemma_visible_prefix(ds, fl, j + 1, n);
    lemma_visible_props(ds, fl, j + 1);
    let w = visible_upto(ds, fl, j + 1);
    if c >= w.len() {
        assert(v[c] >= j + 1);
    }
    assert(w[c] == v[c]);
    if c + 1 < w.len() {
        assert(w[c] < w[c + 1]);
        assert(w[c + 1] < j + 1);
    }
    assert(w =~= v.take(c + 1));
}

/// Only the flags of nodes before `m - 1` matter to the visible nodes among the first `m`.
proof fn lemma_visible_flags(ds: Seq<usize>, fl1: Seq<bool>, fl2: Seq<bool>, m: int)
    requires
        0 <= m <= ds.len(),
        forall|a: int| 0 <= a < m - 1 ==> fl1[a] == fl2[a],
    ensures
        visible_upto(ds, fl1, m) == visible_upto(ds, fl2, m),
    decreases m,
{
    if m > 0 {
        lemma_visible_flags(ds, fl1, fl2, m - 1);
        assert(shown(ds, fl1, m - 1) == shown(ds, fl2, m - 1)) by {
            assert forall|a: int| #[trigger] is_ancestor(ds, a, m - 1) implies fl1[a] == fl2[a] by {}
        }
    }
}

/// A shown node is among the visible ones.
proof fn lemma_visible_contains(ds: Seq<usize>, fl: Seq<bool>, n: int, j: int)
    requires
        0 <= j < n <= ds.len(),
        ds.len() <= usize::MAX,
        shown(ds, fl, j),
    ensures
        exists|k: int|
            0 <= k < visible_upto(ds, fl, n).len() && #[trigger] visible_upto(ds, fl, n)[k] == j,
{
    lemma_visible_prefix(ds, fl, j + 1, n);
    let w = visible_upto(ds, fl, j + 1);
    let v = visible_upto(ds, fl, n);
    assert(w == visible_upto(ds, fl, j).push(j as usize));
    assert(w.last() == j);
    assert(v[w.len() - 1] == w[w.len() - 1]);
}

proof fn lemma_children_witness(ds: Seq<usize>, p: int, n: int)
    requires
        0 <= n <= ds.len(),
        children_upto(ds, p, n).len() > 0,
    ensures
        exists|m: int| 0 <= m < n && #[trigger] parent_spec(ds, m) == Some(p),
    decreases n,
{
    if parent_spec(ds, n - 1) != Some(p) {
        lemma_children_witness(ds, p, n - 1);
    }
}

/// `n` with its folding flag set to `b`.
pub open spec fn with_collapsed(n: Node, b: bool) -> Node {
    Node { collapsed: b, ..n }
}

/// `a` and `b` differ at most by their cursor.
pub open spec fn same_tree(a: CallTree, b: CallTree) -> bool {
    &&& a.spec_nodes() == b.spec_nodes()
    &&& a.spec_roots() == b.spec_roots()
    &&& a.spec_max_total() == b.spec_max_total()
}

/// `b` is `a` with the folding flag of node `i` set to `f`, the cursor kept.
pub open spec fn refolded(a: CallTree, b: CallTree, i: int, f: bool) -> bool {
    &&& b.spec_nodes() == a.spec_nodes().update(i, with_collapsed(a.spec_nodes()[i], f))
    &&& b.spec_roots() == a.spec_roots()
    &&& b.spec_max_total() == a.spec_max_total()
    &&& b.spec_cursor() == a.spec_cursor()
}

/// The cursor after `↑`: one line up, from the top to the bottom.
pub open spec fn up_cursor(t: CallTree) -> int {
    let n = t.visible_spec().len();
    let c = t.spec_cursor();
    if n == 0 {
        c as int
    } else if c > 0 {
        c - 1
    } else {
        n - 1
    }
}

/// The cursor after `↓`: one line down, from the bottom to the top.
pub open spec fn down_cursor(t: CallTree) -> int {
    let n = t.visible_spec().len();
    let c = t.spec_cursor();
    if n > 0 && c + 1 < n {
        c + 1
    } else {
        0
    }
}

/// `b` is `a` after `←`: the node at the cursor is folded when it is unfolded and has
/// children; otherwise the cursor goes to its parent.
pub open spec fn collapse_result(a: CallTree, b: CallTree) -> bool {
    let v = a.visible_spec();
    let c = a.spec_cursor();
    let ns = a.spec_nodes();
    if c < v.len() {
        let idx = v[c as int] as int;
        if ns[idx].children@.len() > 0 && !ns[idx].collapsed {
            refolded(a, b, idx, true)
        } else if ns[idx].parent is Some {
            &&& same_tree(b, a)
            &&& b.spec_cursor() < v.len()
            &&& v[b.spec_cursor() as int] == ns[idx].parent->0
        } else {
            b == a
        }
    } else {
        b == a
    }
}

/// `b` is `a` after `→`: the node at the cursor is unfolded when it is folded;
/// otherwise, when it has children, the cursor goes to its first child, the next line.
pub open spec fn expand_result(a: CallTree, b: CallTree) -> bool {
    let v = a.visible_spec();
    let c = a.spec_cursor();
    let ns = a.spec_nodes();
    if c < v.len() && ns[v[c as int] as int].children@.len() > 0 {
        let idx = v[c as int] as int;
        if ns[idx].collapsed {
            refolded(a, b, idx, false)
        } else {
            &&& same_tree(b, a)
            &&& b.spec_cursor() == c + 1
            &&& v[c + 1] == idx + 1
        }
    } else {
        b == a
    }
}

/// `b` is `a` after `⏎`: the folding of the node at the cursor is toggled when it has
/// children.
pub open spec fn toggle_result(a: CallTree, b: CallTree) -> bool {
    let v = a.visible_spec();
    let c = a.spec_cursor();
    let ns = a.spec_nodes();
    if c < v.len() && ns[v[c as int] as int].children@.len() > 0 {
        let idx = v[c as int] as int;
        refolded(a, b, idx, !ns[idx].collapsed)
    } else {
        b == a
    }
}

/// Position of `x` in `v`.
fn position_of(v: &Vec<usize>, x: usize) -> (r: Option<usize>)
    ensures
        match r {
            Some(k) => k < v@.len() && v@[k as int] == x,
            None => forall|k: int| 0 <= k < v@.len() ==> v@[k] != x,
        },
{
    let mut k: usize = 0;
    while k < v.len()
        invariant
            k <= v@.len(),
            forall|k2: int| 0 <= k2 < k ==> v@[k2] != x,
        decreases v@.len() - k,
    {
        if v[k] == x {
            return Some(k);
        }
        k = k + 1;
    }
    None
}

/// `a` is on the chain of parents of `i`.
pub open spec fn on_parent_chain(ds: Seq<usize>, a: int, i: int) -> bool
    decreases i,
{
    if 0 <= i < ds.len() {
        match parent_spec(ds, i) {
            Some(p) => if 0 <= p < i {
                p == a || on_parent_chain(ds, a, p)
            } else {
                false
            },
            None => false,
        }
    } else {
        false
    }
}

/// The ancestors given by the depths are exactly the nodes met by following the parent
/// links: a node is displayed when no node on its chain of parents is collapsed.
pub proof fn law_ancestors_are_parent_chain(ds: Seq<usize>, a: int, i: int)
    ensures
        is_ancestor(ds, a, i) <==> on_parent_chain(ds, a, i),
    decreases i,
{
    if 0 <= i < ds.len() {
        lemma_last_below(ds, ds[i] as int, i);
        match parent_spec(ds, i) {
            Some(p) => {
                law_ancestors_are_parent_chain(ds, a, p);
                assert(is_ancestor(ds, p, i));
                if is_ancestor(ds, a, i) && a != p {
                    assert(a < p);
                    assert forall|l: int| a < l <= p implies ds[a] < #[trigger] ds[l] by {
                        assert(ds[a] < ds[l]);
                    }
                }
                if on_parent_chain(ds, a, i) && a != p {
                    assert(is_ancestor(ds, a, p));
                    assert forall|l: int| a < l <= i implies ds[a] < #[trigger] ds[l] by {
                        if l > p {
                            assert(ds[p] < ds[l]);
                        }
                    }
                }
            },
            None => {
                if is_ancestor(ds, a, i) {
                    assert(ds[a] < ds[i]);
                }
            },
        }
    }
}

/// Whether `name` is among `names`.
fn contains_name(names: &Vec<String>, name: &String) -> (r: bool)
    ensures
        r == names@.map_values(|s: String| s@).contains(name@),
{
    let ghost view = names@.map_values(|s: String| s@);
    let mut m: usize = 0;
    while m < names.len()
        invariant
            m <= names@.len(),
            view == names@.map_values(|s: String| s@),
            forall|k: int| 0 <= k < m ==> view[k] != name@,
        decreases names@.len() - m,
    {
        if names[m] == *name {
            assert(view[m as int] == name@);
            return true;
        }
        m = m + 1;
    }
    false
}

/// Names of the collapsed nodes of an arena.
fn collapsed_names_of(nodes: &Vec<Node>) -> (r: Vec<String>)
    ensures
        r@.map_values(|s: String| s@) == collapsed_names(nodes@),
{
    let mut out: Vec<String> = Vec::new();
    let mut k: usize = 0;
    while k < nodes.len()
        invariant
            k <= nodes@.len(),
            out@.map_values(|s: String| s@) == collapsed_names(nodes@.take(k as int)),
        decreases nodes@.len() - k,
    {
        assert(nodes@.take(k + 1).drop_last() =~= nodes@.take(k as int));
        if nodes[k].collapsed {
            out.push(nodes[k].name.clone());
            assert(out@.map_values(|s: String| s@) =~= collapsed_names(nodes@.take(k as int)).push(
                nodes@[k as int].name@,
            ));
        }
        k = k + 1;
    }
    assert(nodes@.take(k as int) =~= nodes@);
    out
}

/// A call tree: the arena of nodes, the roots, the cursor (a position in the list of
/// visible lines) and the largest duration, the reference of the bars.
pub struct CallTree {
    nodes: Vec<Node>,
    roots: Vec<usize>,
    cursor: usize,
    max_total: u128,
}

impl CallTree {
    pub closed spec fn spec_nodes(&self) -> Seq<Node> {
        self.nodes@
    }

    pub closed spec fn spec_roots(&self) -> Seq<usize> {
        self.roots@
    }

    pub closed spec fn spec_cursor(&self) -> usize {
        self.cursor
    }

    pub closed spec fn spec_max_total(&self) -> u128 {
        self.max_total
    }

    /// The visible lines, as indices in the arena.
    pub open spec fn visible_spec(&self) -> Seq<usize> {
        visible_upto(
            depths_of(self.spec_nodes()),
            flags_of(self.spec_nodes()),
            self.spec_nodes().len() as int,
        )
    }

    /// The links follow the depths, the reference duration is the largest, and the
    /// cursor designates a visible line when there is one.
    pub open spec fn wf(&self) -> bool {
        &&& self.spec_nodes().len() <= usize::MAX
        &&& arena_ok(self.spec_nodes(), self.spec_roots())
        &&& self.spec_max_total() == max_total_of(self.spec_nodes())
        &&& cursor_ok(self.spec_cursor(), self.visible_spec().len())
    }

    /// An empty tree.
    pub fn new() -> (r: CallTree)
        ensures
            r.wf(),
            r.spec_nodes().len() == 0,
            r.spec_cursor() == 0,
    {
        let r = CallTree { nodes: Vec::new(), roots: Vec::new(), cursor: 0, max_total: 0 };
        assert(r.spec_roots() =~= roots_upto(depths_of(r.spec_nodes()), 0));
        r
    }

    /// The lines displayed: prefix order, skipping the children of collapsed nodes.
    pub fn visible(&self) -> (r: Vec<usize>)
        ensures
            r@ == self.visible_spec(),
    {
        visible_of(&self.nodes)
    }

    /// (Re)builds the tree from the whole batch received. A node's parent is the top
    /// of a stack of ancestors once every node at least as deep has been popped. The
    /// folding is kept by name, and the cursor is clamped to the new visible lines.
    pub fn load(&mut self, incoming: Vec<ProfileNode>)
        requires
            old(self).wf(),
        ensures
            load_result(*old(self), *final(self), incoming@),
    {
        let collapsed_paths = collapsed_names_of(&self.nodes);
        let ghost before = self.nodes@;
        let prev_cursor = self.cursor;
        let ghost ds = incoming@.map_values(|n: ProfileNode| n.depth);
        let mut nv: Vec<Node> = Vec::new();
        let mut roots: Vec<usize> = Vec::new();
        let mut max_total: u128 = 0;
        let mut stk: Vec<usize> = Vec::new();
        let count = incoming.len();
        let mut i: usize = 0;
        while i < count
            invariant
                count == incoming@.len(),
                i <= incoming@.len(),
                ds == incoming@.map_values(|n: ProfileNode| n.depth),
                collapsed_paths@.map_values(|s: String| s@) == collapsed_names(before),
                nv@.len() == i,
                forall|j: int|
                    0 <= j < i ==> {
                        &&& (#[trigger] nv@[j]).depth == incoming@[j].depth
                        &&& nv@[j].name@ == incoming@[j].name@
                        &&& nv@[j].total_ns == incoming@[j].dur_us
                        &&& nv@[j].count == incoming@[j].count
                        &&& nv@[j].collapsed == collapsed_names(before).contains(incoming@[j].name@)
                        &&& nv@[j].parent == opt_index(parent_spec(ds, j))
                        &&& nv@[j].children@ == children_upto(ds, j, i as int)
                    },
                roots@ == roots_upto(ds, i as int),
                max_total == max_total_of(nv@),
                stack_ok(ds, stk@, i as int),
            decreases incoming@.len() - i,
        {
            let d = incoming[i].depth;
            let ghost stk0 = stk@;
            while stk.len() > 0 && nv[stk[stk.len() - 1]].depth >= d
                invariant
                    nv@.len() == i,
                    i < incoming@.len(),
                    ds == incoming@.map_values(|n: ProfileNode| n.depth),
                    d == ds[i as int],
                    forall|j: int| 0 <= j < i ==> (#[trigger] nv@[j]).depth == ds[j],
                    stack_ok(ds, stk0, i as int),
                    stk@.len() <= stk0.len(),
                    stk@ == stk0.take(stk@.len() as int),
                    forall|k: int|
                        stk@.len() <= k < stk0.len() ==> ds[#[trigger] stk0[k] as int] >= d,
                decreases stk@.len(),
            {
                let ghost top = stk@.len() - 1;
                assert(stk0[top] < i);
                stk.pop();
                assert(stk@ =~= stk0.take(stk@.len() as int));
            }
            let keep = stk.len();
            proof {
                if keep > 0 {
                    assert(stk0[keep - 1] < i);
                }
                lemma_stack_step(ds, stk0, i as int, keep as int);
                lemma_parent_before(ds, i as int);
            }
            let parent: Option<usize> = if keep > 0 {
                Some(stk[keep - 1])
            } else {
                None
            };
            let idx = nv.len();
            let collapsed = contains_name(&collapsed_paths, &incoming[i].name);
            let ghost nv0 = nv@;
            let node = Node {
                depth: d,
                name: incoming[i].name.clone(),
                total_ns: incoming[i].dur_us,
                count: incoming[i].count,
                parent,
                children: Vec::new(),
                collapsed,
            };
            nv.push(node);
            proof {
                lemma_children_upto_early(ds, i as int, i + 1);
                assert(nv@.drop_last() =~= nv0);
            }
            let ghost nv1 = nv@;
            match parent {
                Some(p) => {
                    nv[p].children.push(idx);
                },
                None => {
                    roots.push(idx);
                },
            }
            assert forall|j: int| 0 <= j < i + 1 implies (#[trigger] nv@[j]).children@
                == children_upto(ds, j, i + 1) by {
                if j < i {
                    assert(nv1[j] == nv0[j]);
                }
            }
            proof {
                assert(max_total_of(nv1) == (if incoming@[i as int].dur_us > max_total {
                    incoming@[i as int].dur_us
                } else {
                    max_total
                }));
                assert forall|j: int| 0 <= j < nv@.len() implies (#[trigger] nv@[j]).total_ns
                    == nv1[j].total_ns by {}
                lemma_max_total_same(nv@, nv1);
            }
            stk.push(idx);
            assert(stk@ =~= stk0.take(keep as int).push(i));
            if incoming[i].dur_us > max_total {
                max_total = incoming[i].dur_us;
            }
            i = i + 1;
        }
        assert(depths_of(nv@) =~= ds);
        self.nodes = nv;
        self.roots = roots;
        self.max_total = max_total;
        self.cursor = 0;
        let visible_len = self.visible().len();
        self.cursor = if visible_len == 0 {
            0
        } else if prev_cursor < visible_len {
            prev_cursor
        } else {
            visible_len - 1
        };
    }

    /// Changing the folding flag of the node at the cursor keeps the tree well formed.
    proof fn lemma_refold_wf(a: CallTree, b: CallTree, f: bool)
        requires
            a.wf(),
            a.spec_cursor() < a.visible_spec().len(),
            refolded(a, b, a.visible_spec()[a.spec_cursor() as int] as int, f),
        ensures
            b.wf(),
    {
        let ns = a.spec_nodes();
        let v = a.visible_spec();
        let c = a.spec_cursor() as int;
        let idx = v[c] as int;
        lemma_visible_props(depths_of(ns), flags_of(ns), ns.len() as int);
        let nb = b.spec_nodes();
        assert(depths_of(nb) =~= depths_of(ns));
        let ds = depths_of(ns);
        assert forall|i: int| 0 <= i < nb.len() implies (#[trigger] nb[i]).total_ns
            == ns[i].total_ns by {}
        lemma_max_total_same(nb, ns);
        assert forall|i: int| 0 <= i < nb.len() implies (#[trigger] nb[i]).parent == opt_index(
            parent_spec(ds, i),
        ) by {
            assert(ns[i].parent == opt_index(parent_spec(ds, i)));
        }
        assert forall|i: int| 0 <= i < nb.len() implies (#[trigger] nb[i]).children@
            == children_upto(ds, i, nb.len() as int) by {
            assert(ns[i].children@ == children_upto(ds, i, ns.len() as int));
        }
        let fl = flags_of(ns);
        let fl2 = flags_of(nb);
        lemma_visible_position(ds, fl, ns.len() as int, c);
        lemma_visible_flags(ds, fl, fl2, idx + 1);
        lemma_visible_prefix(ds, fl2, idx + 1, ns.len() as int);
    }

    /// Moves the cursor up one line, from the top to the bottom.
    pub fn move_up(&mut self)
        requires
            old(self).wf(),
        ensures
            final(self).wf(),
            same_tree(*final(self), *old(self)),
            final(self).spec_cursor() == up_cursor(*old(self)),
    {
        let n = self.visible().len();
        if n == 0 {
            return ;
        }
        if self.cursor > 0 {
            self.cursor = self.cursor - 1;
        } else {
            self.cursor = n - 1;
        }
    }

    /// Moves the cursor down one line, from the bottom to the top.
    pub fn move_down(&mut self)
        requires
            old(self).wf(),
        ensures
            final(self).wf(),
            same_tree(*final(self), *old(self)),
            final(self).spec_cursor() == down_cursor(*old(self)),
    {
        let n = self.visible().len();
        if n > 0 && self.cursor + 1 < n {
            self.cursor = self.cursor + 1;
        } else {
            self.cursor = 0;
        }
    }

    /// `←`: folds the node at the cursor when it is unfolded and has children;
    /// otherwise moves the cursor to its parent.
    pub fn collapse(&mut self)
        requires
            old(self).wf(),
        ensures
            final(self).wf(),
            collapse_result(*old(self), *final(self)),
    {
        let visible = self.visible();
        if self.cursor >= visible.len() {
            return ;
        }
        let idx = visible[self.cursor];
        let ghost a = *self;
        let ghost ns = self.nodes@;
        let ghost ds = depths_of(ns);
        let ghost fl = flags_of(ns);
        proof {
            lemma_visible_props(ds, fl, ns.len() as int);
        }
        if self.nodes[idx].has_children() && !self.nodes[idx].collapsed {
            self.nodes[idx].collapsed = true;
            proof {
                assert(self.nodes@ =~= ns.update(idx as int, with_collapsed(ns[idx as int], true)));
                CallTree::lemma_refold_wf(a, *self, true);
            }
        } else if let Some(p) = self.nodes[idx].parent {
            proof {
                lemma_last_below(ds, ds[idx as int] as int, idx as int);
                assert(is_ancestor(ds, p as int, idx as int));
                assert forall|q: int| #[trigger] is_ancestor(ds, q, p as int) implies !fl[q] by {
                    assert(is_ancestor(ds, q, idx as int));
                }
                lemma_visible_contains(ds, fl, ns.len() as int, p as int);
            }
            match position_of(&visible, p) {
                Some(pos) => {
                    self.cursor = pos;
                },
                None => {},
            }
        }
    }

    /// `→`: unfolds the node at the cursor when it is folded; otherwise, when it has
    /// children, moves the cursor to its first child (the next line in prefix order).
    pub fn expand(&mut self)
        requires
            old(self).wf(),
        ensures
            final(self).wf(),
            expand_result(*old(self), *final(self)),
    {
        let visible = self.visible();
        if self.cursor >= visible.len() {
            return ;
        }
        let idx = visible[self.cursor];
        let ghost a = *self;
        let ghost ns = self.nodes@;
        let ghost ds = depths_of(ns);
        let ghost fl = flags_of(ns);
        proof {
            lemma_visible_props(ds, fl, ns.len() as int);
        }
        if self.nodes[idx].has_children() {
            if self.nodes[idx].collapsed {
                self.nodes[idx].collapsed = false;
                proof {
                    assert(self.nodes@ =~= ns.update(idx as int, with_collapsed(ns[idx as int], false)));
                    CallTree::lemma_refold_wf(a, *self, false);
                }
            } else {
                proof {
                    let c = self.cursor as int;
                    let n = ns.len() as int;
                    lemma_children_witness(ds, idx as int, n);
                    let m = choose|m: int| 0 <= m < n && #[trigger] parent_spec(ds, m) == Some(
                        idx as int,
                    );
                    lemma_last_below(ds, ds[m] as int, m);
                    let j = idx + 1;
                    assert(ds[j as int] > ds[idx as int]);
                    assert forall|q: int| #[trigger] is_ancestor(ds, q, j as int) implies !fl[q] by {
                        if q < idx {
                            assert(is_ancestor(ds, q, idx as int));
                        }
                    }
                    lemma_visible_position(ds, fl, n, c);
                    lemma_visible_prefix(ds, fl, j + 1, n);
                    let v = visible_upto(ds, fl, n);
                    assert(visible_upto(ds, fl, j as int) == v.take(c + 1));
                    assert(visible_upto(ds, fl, j + 1) == visible_upto(ds, fl, j as int).push(
                        j as usize,
                    ));
                    assert(v.take(c + 2)[c + 1] == j);
                    assert(v[c + 1] == j);
                }
                self.cursor = self.cursor + 1;
            }
        }
    }

    /// `⏎`: toggles the folding of the node at the cursor when it has children.
    pub fn toggle(&mut self)
        requires
            old(self).wf(),
        ensures
            final(self).wf(),
            toggle_result(*old(self), *final(self)),
    {
        let visible = self.visible();
        if self.cursor >= visible.len() {
            return ;
        }
        let idx = visible[self.cursor];
        let ghost a = *self;
        let ghost ns = self.nodes@;
        proof {
            lemma_visible_props(depths_of(ns), flags_of(ns), ns.len() as int);
        }
        if self.nodes[idx].has_children() {
            let f = !self.nodes[idx].collapsed;
            self.nodes[idx].collapsed = f;
            proof {
                assert(self.nodes@ =~= ns.update(idx as int, with_collapsed(ns[idx as int], f)));
                CallTree::lemma_refold_wf(a, *self, f);
            }
        }
    }
}

proof fn lemma_collapsed_names_contains(nodes: Seq<Node>, x: Seq<char>)
    ensures
        collapsed_names(nodes).contains(x) <==> exists|j: int|
            0 <= j < nodes.len() && (#[trigger] nodes[j]).collapsed && nodes[j].name@ == x,
    decreases nodes.len(),
{
    if nodes.len() > 0 {
        let init = nodes.drop_last();
        lemma_collapsed_names_contains(init, x);
        let cn = collapsed_names(init);
        if nodes.last().collapsed {
            let cn1 = cn.push(nodes.last().name@);
            if cn1.contains(x) {
                let k = choose|k: int| 0 <= k < cn1.len() && cn1[k] == x;
                if k < cn.len() {
                    assert(cn[k] == x);
                    let j = choose|j: int| 0 <= j < init.len() && (#[trigger] init[j]).collapsed
                        && init[j].name@ == x;
                    assert(nodes[j] == init[j]);
                } else {
                    assert(nodes[nodes.len() - 1].name@ == x);
                }
            }
            if exists|j: int| 0 <= j < nodes.len() && (#[trigger] nodes[j]).collapsed && nodes[j].name@ == x {
                let j = choose|j: int| 0 <= j < nodes.len() && (#[trigger] nodes[j]).collapsed
                    && nodes[j].name@ == x;
                if j < init.len() {
                    assert(init[j] == nodes[j]);
                    let k = choose|k: int| 0 <= k < cn.len() && cn[k] == x;
                    assert(cn1[k] == x);
                } else {
                    assert(cn1[cn.len() as int] == x);
                }
            }
        } else {
            if exists|j: int| 0 <= j < nodes.len() && (#[trigger] nodes[j]).collapsed && nodes[j].name@ == x {
                let j = choose|j: int| 0 <= j < nodes.len() && (#[trigger] nodes[j]).collapsed
                    && nodes[j].name@ == x;
                assert(init[j] == nodes[j]);
            }
            if cn.contains(x) {
                let j = choose|j: int| 0 <= j < init.len() && (#[trigger] init[j]).collapsed
                    && init[j].name@ == x;
                assert(nodes[j] == init[j]);
            }
        }
    }
}

/// Loading the same batch twice gives the tree of a single load, folding and cursor
/// included: a frame sent again does not make the tree jump.
pub proof fn law_load_idempotent(t0: CallTree, t1: CallTree, t2: CallTree, batch: Seq<ProfileNode>)
    requires
        t0.wf(),
        load_result(t0, t1, batch),
        load_result(t1, t2, batch),
    ensures
        same_nodes(t2.spec_nodes(), t1.spec_nodes()),
        t2.spec_roots() == t1.spec_roots(),
        t2.spec_max_total() == t1.spec_max_total(),
        t2.spec_cursor() == t1.spec_cursor(),
{
    let n1 = t1.spec_nodes();
    let n2 = t2.spec_nodes();
    assert forall|i: int| 0 <= i < n2.len() implies (#[trigger] n2[i]).collapsed == n1[i].collapsed by {
        let x = batch[i].name@;
        lemma_collapsed_names_contains(n1, x);
        lemma_collapsed_names_contains(t0.spec_nodes(), x);
        if n2[i].collapsed {
            let j = choose|j: int| 0 <= j < n1.len() && (#[trigger] n1[j]).collapsed && n1[j].name@ == x;
            assert(n1[j].name@ == batch[j].name@);
        } else {
            assert(n1[i].name@ == x);
        }
    }
    assert(depths_of(n2) =~= depths_of(n1));
    assert(flags_of(n2) =~= flags_of(n1));
    assert forall|i: int| 0 <= i < n2.len() implies (#[trigger] n2[i]).total_ns == n1[i].total_ns by {}
    lemma_max_total_same(n2, n1);
    assert forall|i: int| 0 <= i < n2.len() implies (#[trigger] n2[i]).parent == n1[i].parent
        && n2[i].children@ == n1[i].children@ by {}
}

/// `↓` then `↑` brings the cursor back to its line.
pub proof fn law_down_then_up(t0: CallTree, t1: CallTree, t2: CallTree)
    requires
        t0.wf(),
        same_tree(t1, t0),
        t1.spec_cursor() == down_cursor(t0),
        same_tree(t2, t1),
        t2.spec_cursor() == up_cursor(t1),
    ensures
        t2.spec_cursor() == t0.spec_cursor(),
{
}

/// `↑` then `↓` brings the cursor back to its line.
pub proof fn law_up_then_down(t0: CallTree, t1: CallTree, t2: CallTree)
    requires
        t0.wf(),
        same_tree(t1, t0),
        t1.spec_cursor() == up_cursor(t0),
        same_tree(t2, t1),
        t2.spec_cursor() == down_cursor(t1),
    ensures
        t2.spec_cursor() == t0.spec_cursor(),
{
}

/// After the folding of the node at the cursor changes, the cursor still designates it.
proof fn lemma_refold_keeps_line(a: CallTree, b: CallTree, f: bool)
    requires
        a.wf(),
        a.spec_cursor() < a.visible_spec().len(),
        refolded(a, b, a.visible_spec()[a.spec_cursor() as int] as int, f),
    ensures
        b.spec_cursor() < b.visible_spec().len(),
        b.visible_spec()[b.spec_cursor() as int] == a.visible_spec()[a.spec_cursor() as int],
        depths_of(b.spec_nodes()) == depths_of(a.spec_nodes()),
{
    let ns = a.spec_nodes();
    let nb = b.spec_nodes();
    let ds = depths_of(ns);
    let c = a.spec_cursor() as int;
    let v = a.visible_spec();
    let idx = v[c] as int;
    lemma_visible_props(ds, flags_of(ns), ns.len() as int);
    assert(depths_of(nb) =~= ds);
    lemma_visible_position(ds, flags_of(ns), ns.len() as int, c);
    lemma_visible_flags(ds, flags_of(ns), flags_of(nb), idx + 1);
    lemma_visible_prefix(ds, flags_of(nb), idx + 1, nb.len() as int);
    let w = b.visible_spec();
    assert(w.take(c + 1)[c] == w[c]);
}

/// `⏎` twice gives back the tree.
pub proof fn law_toggle_twice(t0: CallTree, t1: CallTree, t2: CallTree)
    requires
        t0.wf(),
        toggle_result(t0, t1),
        t1.wf(),
        toggle_result(t1, t2),
    ensures
        t2.spec_nodes() == t0.spec_nodes(),
        t2.spec_roots() == t0.spec_roots(),
        t2.spec_max_total() == t0.spec_max_total(),
        t2.spec_cursor() == t0.spec_cursor(),
{
    let v = t0.visible_spec();
    let c = t0.spec_cursor();
    let ns = t0.spec_nodes();
    if c < v.len() && ns[v[c as int] as int].children@.len() > 0 {
        let idx = v[c as int] as int;
        lemma_visible_props(depths_of(ns), flags_of(ns), ns.len() as int);
        lemma_refold_keeps_line(t0, t1, !ns[idx].collapsed);
        assert(t2.spec_nodes() =~= ns);
    }
}

/// `←` on an unfolded node with children, then `→`, gives back the tree.
pub proof fn law_collapse_then_expand(t0: CallTree, t1: CallTree, t2: CallTree)
    requires
        t0.wf(),
        t0.spec_cursor() < t0.visible_spec().len(),
        t0.spec_nodes()[t0.visible_spec()[t0.spec_cursor() as int] as int].children@.len() > 0,
        !t0.spec_nodes()[t0.visible_spec()[t0.spec_cursor() as int] as int].collapsed,
        collapse_result(t0, t1),
        t1.wf(),
        expand_result(t1, t2),
    ensures
        t2.spec_nodes() == t0.spec_nodes(),
        t2.spec_roots() == t0.spec_roots(),
        t2.spec_max_total() == t0.spec_max_total(),
        t2.spec_cursor() == t0.spec_cursor(),
{
    let v = t0.visible_spec();
    let c = t0.spec_cursor();
    let ns = t0.spec_nodes();
    let idx = v[c as int] as int;
    lemma_visible_props(depths_of(ns), flags_of(ns), ns.len() as int);
    lemma_refold_keeps_line(t0, t1, true);
    assert(t2.spec_nodes() =~= ns);
}

/// `s` with everything between angle brackets removed, nesting included, read from
/// `depth` levels of nesting.
pub open spec fn strip_from(s: Seq<char>, depth: nat) -> Seq<char>
    decreases s.len(),
{
    if s.len() == 0 {
        Seq::empty()
    } else if s[0] == '<' {
        strip_from(s.drop_first(), depth + 1)
    } else if s[0] == '>' {
        strip_from(s.drop_first(), if depth > 0 { (depth - 1) as nat } else { 0 })
    } else if depth == 0 {
        seq![s[0]] + strip_from(s.drop_first(), 0)
    } else {
        strip_from(s.drop_first(), depth)
    }
}

/// Removes everything between angle brackets (`<…>`), nested ones included, to keep
/// only the skeleton of a path.
pub fn strip_generics(name: &str) -> (r: String)
    ensures
        r@ == strip_from(name@, 0),
{
    let cs = to_chars(name);
    let mut out: Vec<char> = Vec::new();
    let mut depth: usize = 0;
    let mut i: usize = 0;
    assert(cs@.skip(0) =~= cs@);
    assert(out@ + strip_from(cs@, 0) =~= strip_from(cs@, 0));
    while i < cs.len()
        invariant
            cs@ == name@,
            i <= cs@.len(),
            depth <= i,
            out@ + strip_from(cs@.skip(i as int), depth as nat) == strip_from(cs@, 0),
        decreases cs@.len() - i,
    {
        let ch = cs[i];
        let ghost rest = cs@.skip(i as int);
        assert(rest.drop_first() =~= cs@.skip(i + 1));
        if ch == '<' {
            depth = depth + 1;
        } else if ch == '>' {
            if depth > 0 {
                depth = depth - 1;
            }
        } else if depth == 0 {
            let ghost out0 = out@;
            out.push(ch);
            assert(out@ + strip_from(cs@.skip(i + 1), 0) =~= out0 + (seq![ch] + strip_from(
                cs@.skip(i + 1),
                0,
            )));
        }
        i = i + 1;
    }
    assert(cs@.skip(i as int) =~= Seq::<char>::empty());
    assert(out@ + Seq::<char>::empty() =~= out@);
    from_chars(out.as_slice())
}

/// The separator of path segments.
pub open spec fn path_sep() -> Seq<char> {
    seq![':', ':']
}

/// The last two segments of a path, generic arguments removed first (their own `::`
/// would spoil the cut); a name without `::` is kept whole.
pub open spec fn short_name_spec(name: Seq<char>) -> Seq<char> {
    let t = strip_from(name, 0);
    let parts = split_str_spec(t, path_sep());
    if parts.len() >= 2 {
        parts[parts.len() - 2] + path_sep() + parts[parts.len() - 1]
    } else {
        t
    }
}

/// Shortens a Rust path `a::b::c::Foo::new` to `Foo::new`.
pub fn short_name(name: &str) -> (r: String)
    ensures
        r@ == short_name_spec(name@),
{
    let stripped = strip_generics(name);
    let cs = to_chars(stripped.as_str());
    let sep = vec![':', ':'];
    assert(sep@ =~= path_sep());
    let parts = split_str(cs.as_slice(), sep.as_slice());
    let n = parts.len();
    if n >= 2 {
        let mut out: Vec<char> = Vec::new();
        push_all(&mut out, parts[n - 2].as_slice());
        push_all(&mut out, sep.as_slice());
        push_all(&mut out, parts[n - 1].as_slice());
        assert(out@ =~= parts@[n - 2]@ + path_sep() + parts@[n - 1]@);
        from_chars(out.as_slice())
    } else {
        stripped
    }
}

/// `s` cut with an ellipsis, or padded with spaces, to exactly `w` characters.
pub open spec fn fit_spec(s: Seq<char>, w: nat) -> Seq<char> {
    if s.len() > w {
        if w == 0 {
            Seq::empty()
        } else {
            s.take(w - 1).push('…')
        }
    } else {
        pad_right(s, w)
    }
}

/// Cuts (with `…`) or pads with spaces to occupy exactly `w` columns, counting
/// characters, not bytes.
pub fn fit(s: String, w: usize) -> (r: String)
    ensures
        r@ == fit_spec(s@, w as nat),
        r@.len() == w,
{
    let cs = to_chars(s.as_str());
    let len = cs.len();
    let mut out: Vec<char> = Vec::new();
    if len > w {
        if w == 0 {
            return String::new();
        }
        let mut k: usize = 0;
        while k < w - 1
            invariant
                k <= w - 1,
                w - 1 < cs@.len(),
                out@ == cs@.take(k as int),
            decreases w - 1 - k,
        {
            out.push(cs[k]);
            k = k + 1;
            assert(out@ =~= cs@.take(k as int));
        }
        out.push('…');
    } else {
        push_all(&mut out, cs.as_slice());
        let mut k: usize = len;
        while k < w
            invariant
                len <= k <= w,
                len == cs@.len(),
                out@ == cs@ + spaces((k - len) as nat),
            decreases w - k,
        {
            out.push(' ');
            k = k + 1;
            assert(out@ =~= cs@ + spaces((k - len) as nat));
        }
        assert(out@ =~= pad_right(cs@, w as nat));
    }
    from_chars(out.as_slice())
}

/// The fold marker of a node: `▸` folded, `▾` unfolded, blank without children.
pub open spec fn chevron(n: Node) -> Seq<char> {
    if n.children@.len() > 0 {
        if n.collapsed {
            seq!['▸', ' ']
        } else {
            seq!['▾', ' ']
        }
    } else {
        seq![' ', ' ']
    }
}

/// The label of a node: two spaces per level, the fold marker, the short name and,
/// for an aggregate (count above 1), ` ×count`.
pub open spec fn label_spec(n: Node) -> Seq<char> {
    spaces(2 * n.depth as nat) + chevron(n) + short_name_spec(n.name@) + (if n.count > 1 {
        seq![' ', '×'] + decimal(n.count as nat)
    } else {
        Seq::empty()
    })
}

impl Node {
    /// The label of the node's line, before it is fitted to the name column.
    pub fn label(&self) -> (r: String)
        ensures
            r@ == label_spec(*self),
    {
        let mut out: Vec<char> = Vec::new();
        let mut k: usize = 0;
        while k < self.depth
            invariant
                k <= self.depth,
                out@ == spaces(2 * k as nat),
            decreases self.depth - k,
        {
            out.push(' ');
            out.push(' ');
            k = k + 1;
            assert(out@ =~= spaces(2 * k as nat));
        }
        if self.has_children() {
            if self.collapsed {
                out.push('▸');
            } else {
                out.push('▾');
            }
        } else {
            out.push(' ');
        }
        out.push(' ');
        let short = short_name(self.name.as_str());
        let sc = to_chars(short.as_str());
        push_all(&mut out, sc.as_slice());
        let ghost base = out@;
        assert(base =~= spaces(2 * self.depth as nat) + chevron(*self) + short_name_spec(
            self.name@,
        ));
        if self.count > 1 {
            out.push(' ');
            out.push('×');
            let digits = to_decimal(self.count as u128);
            push_all(&mut out, digits.as_slice());
            assert(out@ =~= base + (seq![' ', '×'] + decimal(self.count as nat)));
        } else {
            assert(out@ =~= base + Seq::<char>::empty());
        }
        from_chars(out.as_slice())
    }
}

/// Width kept for a readable name before the duration and the bar are shown.
pub const NAME_MIN: usize = 16;

/// Width of the duration column.
pub const DUR_W: usize = 9;

/// The columns of a tree box: the duration and the bar are dropped when the width
/// runs short, so a small box shows the names only and a zoomed one the whole detail.
pub struct TreeColumns {
    pub show_dur: bool,
    /// Cells of the bar; 0 when there is no bar.
    pub bar_cells: usize,
    pub name_w: usize,
}

/// `x` brought into `[lo, hi]`.
pub open spec fn clamp_spec(x: int, lo: int, hi: int) -> int {
    if x < lo {
        lo
    } else if x > hi {
        hi
    } else {
        x
    }
}

/// The columns for a box `width` characters wide.
pub fn tree_columns(width: usize) -> (r: TreeColumns)
    ensures
        r.show_dur == (width >= NAME_MIN + 1 + DUR_W),
        r.bar_cells == (if r.show_dur && width - (DUR_W + 1) >= NAME_MIN + 1 + 8 {
            let c = clamp_spec((width / 4) as int, 8, 40);
            let room = width - (DUR_W + 1) - NAME_MIN - 1;
            if c < room {
                c
            } else {
                room
            }
        } else {
            0
        }),
        r.name_w == width - (if r.show_dur {
            DUR_W + 1
        } else {
            0
        }) - (if r.bar_cells > 0 {
            r.bar_cells + 1
        } else {
            0
        }),
{
    let show_dur = width >= NAME_MIN + 1 + DUR_W;
    let after_dur = if show_dur {
        width - (DUR_W + 1)
    } else {
        width
    };
    let bar_cells = if show_dur && after_dur >= NAME_MIN + 1 + 8 {
        let q = width / 4;
        let c = if q < 8 {
            8
        } else if q > 40 {
            40
        } else {
            q
        };
        let room = after_dur - NAME_MIN - 1;
        if c < room {
            c
        } else {
            room
        }
    } else {
        0
    };
    let reserved = (if show_dur {
        DUR_W + 1
    } else {
        0
    }) + (if bar_cells > 0 {
        bar_cells + 1
    } else {
        0
    });
    TreeColumns { show_dur, bar_cells, name_w: width - reserved }
}

impl CallTree {
    /// Number of nodes.
    pub fn len(&self) -> (r: usize)
        ensures
            r == self.spec_nodes().len(),
    {
        self.nodes.len()
    }

    /// Node `i` of the arena.
    pub fn node(&self, i: usize) -> (r: &Node)
        requires
            i < self.spec_nodes().len(),
        ensures
            *r == self.spec_nodes()[i as int],
    {
        &self.nodes[i]
    }

    /// The roots, in order.
    pub fn roots(&self) -> (r: &Vec<usize>)
        ensures
            r@ == self.spec_roots(),
    {
        &self.roots
    }

    /// Position of the cursor in the visible lines.
    pub fn cursor(&self) -> (r: usize)
        ensures
            r == self.spec_cursor(),
    {
        self.cursor
    }

    /// The largest duration of the tree, the 100 % of the bars.
    pub fn max_total(&self) -> (r: u128)
        ensures
            r == self.spec_max_total(),
    {
        self.max_total
    }
}

} // verus!
