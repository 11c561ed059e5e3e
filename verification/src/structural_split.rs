//! Structural filter with a partition of the labels: every region count of a
//! node is also split by the part of the labels of the nodes it counts, and
//! two nodes are compared by how much of each region they can share within a
//! part.

use crate::structural::{
    describes_node, element_of, find_set, has_set, regions_of, svec_of, weight_sum, LabelSetConverter, LabelSetElement, LabelSetElementBase,
    SplitLabelSetElement, SplitStructuralFilterTuple, SplitStructuralVec, StructuralFilterTuple,
    StructuralVec,
};
use crate::traversal::{lemma_post_index_range, shape_of, tree_shape, TreeShape};
use crate::tree::TreeArena;
use vstd::prelude::*;

verus! {

/// Largest tree size the split structural filter takes: with it the split L1
/// distance, a sum of sixteen count differences, stays inside `u32`.
pub const SPLIT_MAX_TREE: usize = 0x3ff_ffff;

/// Number of the first `x` slots whose part is `i`.
pub open spec fn pre_count(sids: Seq<usize>, i: int, x: int) -> int
    decreases x,
{
    if x <= 0 {
        0
    } else {
        pre_count(sids, i, x - 1) + (if sids[x - 1] == i { 1int } else { 0 })
    }
}

/// The slot at postorder position `q`.
pub open spec fn post_slot(t: TreeArena, q: int) -> int {
    choose|y: int| 0 <= y < t.n() && t.post_index(y) == q
}

/// Number of the nodes at the first `p` postorder positions whose part is `i`.
pub open spec fn post_count(t: TreeArena, sids: Seq<usize>, i: int, p: int) -> int
    decreases p,
{
    if p <= 0 {
        0
    } else {
        post_count(t, sids, i, p - 1) + (if sids[post_slot(t, p - 1)] == i { 1int } else { 0 })
    }
}

/// Number of ancestors of slot `y` whose part is `i`.
pub open spec fn anc_count(t: TreeArena, sids: Seq<usize>, i: int, y: int) -> int
    decreases y,
{
    if y <= 0 || y >= t.n() || t.par(y) < 0 || t.par(y) >= y {
        0
    } else {
        anc_count(t, sids, i, t.par(y)) + (if sids[t.par(y)] == i { 1int } else { 0 })
    }
}

/// Count of region `r` of slot `y` restricted to part `i`: nodes to the left
/// (finished in postorder and not in the subtree), ancestors, nodes to the
/// right, and descendants.
pub open spec fn split_cell(t: TreeArena, sids: Seq<usize>, y: int, r: int, i: int) -> int {
    let sub = pre_count(sids, i, y + t.size(y)) - pre_count(sids, i, y);
    let fin = post_count(t, sids, i, t.post_index(y) + 1);
    let anc = anc_count(t, sids, i, y);
    let tot = pre_count(sids, i, t.n());
    if r == 0 {
        fin - sub
    } else if r == 1 {
        anc
    } else if r == 2 {
        tot - (fin + anc)
    } else {
        sub - (if sids[y] == i { 1int } else { 0 })
    }
}

/// Sum of row `r` of a split table.
pub open spec fn row_sum(m: [[i32; 4]; 4], r: int) -> int {
    m@[r]@[0] + m@[r]@[1] + m@[r]@[2] + m@[r]@[3]
}

/// `ssv` describes slot `y` of `t` under the partition `sids`: its plain
/// structural vector, its split region counts, and region counts that are
/// the sums of their splits.
pub open spec fn split_svec_of(ssv: SplitStructuralVec, t: TreeArena, sids: Seq<usize>, y: int) -> bool {
    &&& svec_of(ssv.svec, t, y)
    &&& forall|r: int, i: int|
        0 <= r < 4 && 0 <= i < 4 ==> #[trigger] ssv.mapping_region_splits@[r]@[i] == split_cell(t, sids, y, r, i)
    &&& forall|r: int| 0 <= r < 4 ==> #[trigger] ssv.svec.mapping_regions@[r] == row_sum(ssv.mapping_region_splits, r)
}

proof fn lemma_pre_count_bounds(sids: Seq<usize>, i: int, x: int)
    requires
        0 <= x,
    ensures
        0 <= pre_count(sids, i, x) <= x,
    decreases x,
{
    if x > 0 {
        lemma_pre_count_bounds(sids, i, x - 1);
    }
}

proof fn lemma_pre_count_mono(sids: Seq<usize>, i: int, x: int, z: int)
    requires
        0 <= x <= z,
    ensures
        pre_count(sids, i, x) <= pre_count(sids, i, z),
    decreases z - x,
{
    if z > x {
        lemma_pre_count_mono(sids, i, x, z - 1);
    }
}

proof fn lemma_post_count_bounds(t: TreeArena, sids: Seq<usize>, i: int, p: int)
    requires
        0 <= p,
    ensures
        0 <= post_count(t, sids, i, p) <= p,
    decreases p,
{
    if p > 0 {
        lemma_post_count_bounds(t, sids, i, p - 1);
    }
}

proof fn lemma_anc_count_bounds(t: TreeArena, sids: Seq<usize>, i: int, y: int)
    requires
        t.wf(),
        0 <= y < t.n(),
    ensures
        0 <= anc_count(t, sids, i, y) <= y,
    decreases y,
{
    if y > 0 && t.par(y) >= 0 && t.par(y) < y {
        lemma_anc_count_bounds(t, sids, i, t.par(y));
    }
}

proof fn lemma_pre_sum(sids: Seq<usize>, x: int)
    requires
        0 <= x <= sids.len(),
        forall|j: int| 0 <= j < sids.len() ==> #[trigger] sids[j] < 4,
    ensures
        pre_count(sids, 0, x) + pre_count(sids, 1, x) + pre_count(sids, 2, x) + pre_count(sids, 3, x) == x,
    decreases x,
{
    if x > 0 {
        lemma_pre_sum(sids, x - 1);
        assert(sids[x - 1] < 4);
    }
}

proof fn lemma_post_sum(t: TreeArena, shape: TreeShape, sids: Seq<usize>, p: int)
    requires
        t.is_tree(),
        shape_of(t, shape),
        sids.len() == t.n(),
        forall|j: int| 0 <= j < sids.len() ==> #[trigger] sids[j] < 4,
        0 <= p <= t.n(),
    ensures
        post_count(t, sids, 0, p) + post_count(t, sids, 1, p) + post_count(t, sids, 2, p) + post_count(t, sids, 3, p) == p,
    decreases p,
{
    if p > 0 {
        lemma_post_sum(t, shape, sids, p - 1);
        let w = shape.postorder@[p - 1] as int;
        assert(t.in_tree(w) && t.post_index(w) == p - 1);
        let y = post_slot(t, p - 1);
        assert(0 <= y < t.n());
        assert(sids[y] < 4);
    }
}

proof fn lemma_anc_sum(t: TreeArena, sids: Seq<usize>, y: int)
    requires
        t.wf(),
        sids.len() == t.n(),
        forall|j: int| 0 <= j < sids.len() ==> #[trigger] sids[j] < 4,
        0 <= y < t.n(),
    ensures
        anc_count(t, sids, 0, y) + anc_count(t, sids, 1, y) + anc_count(t, sids, 2, y) + anc_count(t, sids, 3, y) == t.depth(y),
    decreases y,
{
    if y > 0 && t.par(y) >= 0 && t.par(y) < y {
        lemma_anc_sum(t, sids, t.par(y));
        assert(sids[t.par(y)] < 4);
    }
}

/// The split counts of a node add up, region by region, to the counts of
/// its plain structural vector.
proof fn lemma_split_rows(t: TreeArena, shape: TreeShape, sids: Seq<usize>, y: int)
    requires
        t.is_tree(),
        shape_of(t, shape),
        sids.len() == t.n(),
        forall|j: int| 0 <= j < sids.len() ==> #[trigger] sids[j] < 4,
        0 <= y < t.n(),
    ensures
        forall|r: int|
            0 <= r < 4 ==> split_cell(t, sids, y, r, 0) + split_cell(t, sids, y, r, 1) + split_cell(t, sids, y, r, 2)
                + split_cell(t, sids, y, r, 3) == #[trigger] regions_of(t, y)[r],
{
    lemma_post_index_range(t, y);
    assert(t.size(y) >= 1 && y + t.size(y) <= t.n());
    lemma_pre_sum(sids, y);
    lemma_pre_sum(sids, y + t.size(y));
    lemma_pre_sum(sids, t.n());
    lemma_post_sum(t, shape, sids, t.post_index(y) + 1);
    lemma_anc_sum(t, sids, y);
    assert(sids[y] < 4);
}

/// Prefix counts of part `i` over the slots.
fn prefix_counts(sids: &Vec<usize>, i: usize) -> (r: Vec<usize>)
    requires
        sids@.len() < usize::MAX,
    ensures
        r@.len() == sids@.len() + 1,
        forall|x: int| 0 <= x <= sids@.len() ==> #[trigger] r@[x] as int == pre_count(sids@, i as int, x),
{
    let mut r: Vec<usize> = Vec::new();
    r.push(0);
    let mut x: usize = 0;
    while x < sids.len()
        invariant
            x <= sids@.len(),
            sids@.len() < usize::MAX,
            r@.len() == x + 1,
            forall|z: int| 0 <= z <= x ==> #[trigger] r@[z] as int == pre_count(sids@, i as int, z),
        decreases sids@.len() - x,
    {
        proof {
            lemma_pre_count_bounds(sids@, i as int, x as int);
        }
        let c = r[x] + if sids[x] == i { 1 } else { 0 };
        r.push(c);
        x = x + 1;
    }
    r
}

/// Prefix counts of part `i` over the postorder positions.
fn postorder_counts(tree: &TreeArena, shape: &TreeShape, sids: &Vec<usize>, i: usize) -> (r: Vec<usize>)
    requires
        tree.is_tree(),
        shape_of(*tree, *shape),
        sids@.len() == tree.n(),
    ensures
        r@.len() == tree.n() + 1,
        forall|p: int| 0 <= p <= tree.n() ==> #[trigger] r@[p] as int == post_count(*tree, sids@, i as int, p),
{
    let n = tree.count();
    let mut r: Vec<usize> = Vec::new();
    r.push(0);
    let mut p: usize = 0;
    while p < n
        invariant
            tree.is_tree(),
            shape_of(*tree, *shape),
            n == tree.n(),
            sids@.len() == n,
            p <= n,
            r@.len() == p + 1,
            forall|z: int| 0 <= z <= p ==> #[trigger] r@[z] as int == post_count(*tree, sids@, i as int, z),
        decreases n - p,
    {
        let y = shape.postorder[p];
        proof {
            assert(tree.in_tree(shape.postorder@[p as int] as int));
            assert(tree.post_index(y as int) == p);
            let s = post_slot(*tree, p as int);
            assert(0 <= s < n && tree.post_index(s) == p);
            assert(shape.postorder@[tree.post_index(s)] as int == s);
            lemma_post_count_bounds(*tree, sids@, i as int, p as int);
        }
        let c = r[p] + if sids[y] == i { 1 } else { 0 };
        r.push(c);
        p = p + 1;
    }
    r
}

/// Ancestor counts of part `i` for every slot.
fn ancestor_counts(tree: &TreeArena, sids: &Vec<usize>, i: usize) -> (r: Vec<usize>)
    requires
        tree.is_tree(),
        sids@.len() == tree.n(),
    ensures
        r@.len() == tree.n(),
        forall|y: int| 0 <= y < tree.n() ==> #[trigger] r@[y] as int == anc_count(*tree, sids@, i as int, y),
{
    let n = tree.count();
    let mut r: Vec<usize> = Vec::new();
    let mut y: usize = 0;
    while y < n
        invariant
            tree.is_tree(),
            n == tree.n(),
            sids@.len() == n,
            y <= n,
            r@.len() == y,
            forall|z: int| 0 <= z < y ==> #[trigger] r@[z] as int == anc_count(*tree, sids@, i as int, z),
        decreases n - y,
    {
        proof {
            assert(tree.node_ok(y as int));
            lemma_anc_count_bounds(*tree, sids@, i as int, y as int);
            if y > 0 {
                assert(tree.size(0) == n);
                assert(tree.par(y as int) >= 0);
            }
        }
        let c = match tree.node(y).parent {
            Some(pid) => {
                let p = pid.index();
                proof {
                    lemma_anc_count_bounds(*tree, sids@, i as int, p as int);
                }
                r[p] + if sids[p] == i { 1 } else { 0 }
            },
            None => 0,
        };
        r.push(c);
        y = y + 1;
    }
    r
}

/// The count vectors hold the prefix, postorder and ancestor counts of
/// every part.
pub open spec fn counts_ok(
    t: TreeArena,
    sids: Seq<usize>,
    pre: Seq<Vec<usize>>,
    post: Seq<Vec<usize>>,
    anc: Seq<Vec<usize>>,
) -> bool {
    &&& pre.len() == 4
    &&& post.len() == 4
    &&& anc.len() == 4
    &&& forall|i: int| 0 <= i < 4 ==> (#[trigger] pre[i])@.len() == t.n() + 1
    &&& forall|i: int| 0 <= i < 4 ==> (#[trigger] post[i])@.len() == t.n() + 1
    &&& forall|i: int| 0 <= i < 4 ==> (#[trigger] anc[i])@.len() == t.n()
    &&& forall|i: int, x: int| 0 <= i < 4 && 0 <= x <= t.n() ==> #[trigger] pre[i]@[x] as int == pre_count(sids, i, x)
    &&& forall|i: int, p: int| 0 <= i < 4 && 0 <= p <= t.n() ==> #[trigger] post[i]@[p] as int == post_count(t, sids, i, p)
    &&& forall|i: int, y: int| 0 <= i < 4 && 0 <= y < t.n() ==> #[trigger] anc[i]@[y] as int == anc_count(t, sids, i, y)
}

/// Computes the count vectors of all parts.
fn all_counts(tree: &TreeArena, shape: &TreeShape, sids: &Vec<usize>) -> (r: (Vec<Vec<usize>>, Vec<Vec<usize>>, Vec<Vec<usize>>))
    requires
        tree.is_tree(),
        shape_of(*tree, *shape),
        sids@.len() == tree.n(),
    ensures
        counts_ok(*tree, sids@, r.0@, r.1@, r.2@),
{
    let mut pre: Vec<Vec<usize>> = Vec::new();
    let mut post: Vec<Vec<usize>> = Vec::new();
    let mut anc: Vec<Vec<usize>> = Vec::new();
    let mut i: usize = 0;
    while i < 4
        invariant
            tree.is_tree(),
            shape_of(*tree, *shape),
            sids@.len() == tree.n(),
            i <= 4,
            pre@.len() == i,
            post@.len() == i,
            anc@.len() == i,
            forall|j: int| 0 <= j < i ==> (#[trigger] pre@[j])@.len() == tree.n() + 1,
            forall|j: int| 0 <= j < i ==> (#[trigger] post@[j])@.len() == tree.n() + 1,
            forall|j: int| 0 <= j < i ==> (#[trigger] anc@[j])@.len() == tree.n(),
            forall|j: int, x: int| 0 <= j < i && 0 <= x <= tree.n() ==> #[trigger] pre@[j]@[x] as int == pre_count(sids@, j, x),
            forall|j: int, p: int| 0 <= j < i && 0 <= p <= tree.n() ==> #[trigger] post@[j]@[p] as int == post_count(*tree, sids@, j, p),
            forall|j: int, y: int| 0 <= j < i && 0 <= y < tree.n() ==> #[trigger] anc@[j]@[y] as int == anc_count(*tree, sids@, j, y),
        decreases 4 - i,
    {
        pre.push(prefix_counts(sids, i));
        post.push(postorder_counts(tree, shape, sids, i));
        anc.push(ancestor_counts(tree, sids, i));
        i = i + 1;
    }
    (pre, post, anc)
}

/// One cell of the split regions of slot `y`.
fn cell(
    tree: &TreeArena,
    sids: &Vec<usize>,
    pre: &Vec<Vec<usize>>,
    post: &Vec<Vec<usize>>,
    anc: &Vec<Vec<usize>>,
    y: usize,
    size: usize,
    post_y: usize,
    r: usize,
    i: usize,
) -> (c: i32)
    requires
        tree.is_tree(),
        tree.n() <= SPLIT_MAX_TREE,
        sids@.len() == tree.n(),
        counts_ok(*tree, sids@, pre@, post@, anc@),
        y < tree.n(),
        size == tree.size(y as int),
        post_y == tree.post_index(y as int),
        post_y < tree.n(),
        r < 4,
        i < 4,
    ensures
        c as int == split_cell(*tree, sids@, y as int, r as int, i as int),
        -2 * SPLIT_MAX_TREE <= c <= 2 * SPLIT_MAX_TREE,
{
    let n = tree.count();
    proof {
        assert(tree.size(y as int) >= 1 && y + tree.size(y as int) <= n);
        lemma_pre_count_bounds(sids@, i as int, y as int);
        lemma_pre_count_bounds(sids@, i as int, y + size);
        lemma_pre_count_bounds(sids@, i as int, n as int);
        lemma_pre_count_mono(sids@, i as int, y as int, y + size);
        lemma_post_count_bounds(*tree, sids@, i as int, post_y + 1);
        lemma_anc_count_bounds(*tree, sids@, i as int, y as int);
    }
    let sub = pre[i][y + size] as i64 - pre[i][y] as i64;
    let fin = post[i][post_y + 1] as i64;
    let an = anc[i][y] as i64;
    let tot = pre[i][n] as i64;
    let v: i64 = if r == 0 {
        fin - sub
    } else if r == 1 {
        an
    } else if r == 2 {
        tot - (fin + an)
    } else {
        sub - if sids[y] == i { 1 } else { 0 }
    };
    v as i32
}

/// The split regions of slot `y`.
fn node_splits(
    tree: &TreeArena,
    sids: &Vec<usize>,
    pre: &Vec<Vec<usize>>,
    post: &Vec<Vec<usize>>,
    anc: &Vec<Vec<usize>>,
    y: usize,
    size: usize,
    post_y: usize,
) -> (s: [[i32; 4]; 4])
    requires
        tree.is_tree(),
        tree.n() <= SPLIT_MAX_TREE,
        sids@.len() == tree.n(),
        counts_ok(*tree, sids@, pre@, post@, anc@),
        y < tree.n(),
        size == tree.size(y as int),
        post_y == tree.post_index(y as int),
        post_y < tree.n(),
    ensures
        forall|r: int, i: int|
            0 <= r < 4 && 0 <= i < 4 ==> #[trigger] s@[r]@[i] == split_cell(*tree, sids@, y as int, r, i),
        forall|r: int, i: int| 0 <= r < 4 && 0 <= i < 4 ==> -2 * SPLIT_MAX_TREE <= #[trigger] s@[r]@[i] <= 2 * SPLIT_MAX_TREE,
{
    let s: [[i32; 4]; 4] = [
        [
            cell(tree, sids, pre, post, anc, y, size, post_y, 0, 0),
            cell(tree, sids, pre, post, anc, y, size, post_y, 0, 1),
            cell(tree, sids, pre, post, anc, y, size, post_y, 0, 2),
            cell(tree, sids, pre, post, anc, y, size, post_y, 0, 3),
        ],
        [
            cell(tree, sids, pre, post, anc, y, size, post_y, 1, 0),
            cell(tree, sids, pre, post, anc, y, size, post_y, 1, 1),
            cell(tree, sids, pre, post, anc, y, size, post_y, 1, 2),
            cell(tree, sids, pre, post, anc, y, size, post_y, 1, 3),
        ],
        [
            cell(tree, sids, pre, post, anc, y, size, post_y, 2, 0),
            cell(tree, sids, pre, post, anc, y, size, post_y, 2, 1),
            cell(tree, sids, pre, post, anc, y, size, post_y, 2, 2),
            cell(tree, sids, pre, post, anc, y, size, post_y, 2, 3),
        ],
        [
            cell(tree, sids, pre, post, anc, y, size, post_y, 3, 0),
            cell(tree, sids, pre, post, anc, y, size, post_y, 3, 1),
            cell(tree, sids, pre, post, anc, y, size, post_y, 3, 2),
            cell(tree, sids, pre, post, anc, y, size, post_y, 3, 3),
        ],
    ];
    proof {
        assert forall|r: int, i: int|
            0 <= r < 4 && 0 <= i < 4 implies #[trigger] s@[r]@[i] == split_cell(*tree, sids@, y as int, r, i) by {
            assert(0 <= r < 4 && 0 <= i < 4);
        }
    }
    s
}

/// Split counts stay within twice `SPLIT_MAX_TREE`, region counts are the
/// sums of their splits, and the postorder id is at most `SPLIT_MAX_TREE`.
pub open spec fn split_bounded(ssv: SplitStructuralVec) -> bool {
    &&& forall|r: int, i: int|
        0 <= r < 4 && 0 <= i < 4 ==> -2 * SPLIT_MAX_TREE <= #[trigger] ssv.mapping_region_splits@[r]@[i] <= 2 * SPLIT_MAX_TREE
    &&& forall|r: int| 0 <= r < 4 ==> #[trigger] ssv.svec.mapping_regions@[r] == row_sum(ssv.mapping_region_splits, r)
    &&& ssv.svec.postorder_id <= SPLIT_MAX_TREE
}

/// `nsv` is `sv` with the split counts of the node that `sv` describes.
pub open spec fn split_of(nsv: SplitStructuralVec, sv: StructuralVec, t: TreeArena, sids: Seq<usize>) -> bool {
    &&& nsv.svec.postorder_id == sv.postorder_id
    &&& nsv.svec.label_id@ == sv.label_id@
    &&& forall|y: int| 0 <= y < t.n() && #[trigger] svec_of(sv, t, y) ==> split_svec_of(nsv, t, sids, y)
}

/// `ssv` describes a node of `t` with label `l` under the partition `sids`.
pub open spec fn describes_split_node(ssv: SplitStructuralVec, t: TreeArena, sids: Seq<usize>, l: Seq<char>) -> bool {
    exists|y: int| 0 <= y < t.n() && t.label(y) == l && #[trigger] split_svec_of(ssv, t, sids, y)
}

/// `el` is the split label set of label `el.base.id` in `t`: one vector per
/// node with that label, in postorder.
pub open spec fn split_element_of(el: SplitLabelSetElement, t: TreeArena, sids: Seq<usize>) -> bool {
    let l = el.base.id@;
    let v = el.struct_vec@;
    &&& el.base.weight == v.len()
    &&& el.base.weigh_so_far == 0
    &&& v.len() >= 1
    &&& forall|i: int, j: int|
        0 <= i < j < v.len() ==> (#[trigger] v[i]).svec.postorder_id < (#[trigger] v[j]).svec.postorder_id
    &&& forall|i: int| 0 <= i < v.len() ==> describes_split_node(#[trigger] v[i], t, sids, l)
    &&& forall|y: int|
        0 <= y < t.n() && #[trigger] t.label(y) == l ==> exists|i: int|
            0 <= i < v.len() && split_svec_of(#[trigger] v[i], t, sids, y)
}

/// Some split set has label `l`.
pub open spec fn has_split_set(sets: Seq<SplitLabelSetElement>, l: Seq<char>) -> bool {
    exists|a: int| 0 <= a < sets.len() && (#[trigger] sets[a]).base.id@ == l
}

/// Sum of the weights of the first `m` split label sets.
pub open spec fn split_weight_sum(sets: Seq<SplitLabelSetElement>, m: int) -> int
    decreases m,
{
    if m <= 0 {
        0
    } else {
        split_weight_sum(sets, m - 1) + sets[m - 1].base.weight
    }
}

impl SplitStructuralFilterTuple {
    /// The split label set of a label, if the tree has that label.
    pub fn get(&self, label: &str) -> (r: Option<&SplitLabelSetElement>)
        ensures
            r matches Some(el) ==> exists|a: int| 0 <= a < self.1@.len() && self.1@[a] == *el && el.base.id@ == label@,
            r is None ==> forall|a: int| 0 <= a < self.1@.len() ==> (#[trigger] self.1@[a]).base.id@ != label@,
    {
        let target = label.to_owned();
        match find_split_set(&self.1, &target) {
            Some(a) => Some(&self.1[a]),
            None => None,
        }
    }

    /// The tuple holds the size of `t` and exactly one split label set per
    /// label of `t`, under the partition `sids`.
    pub open spec fn indexes(&self, t: TreeArena, sids: Seq<usize>) -> bool {
        let sets = self.1@;
        &&& self.0 == t.n()
        &&& forall|a: int, b: int| 0 <= a < b < sets.len() ==> (#[trigger] sets[a]).base.id@ != (#[trigger] sets[b]).base.id@
        &&& forall|a: int| 0 <= a < sets.len() ==> split_element_of(#[trigger] sets[a], t, sids)
        &&& forall|y: int| 0 <= y < t.n() ==> has_split_set(sets, #[trigger] t.label(y))
    }

    /// Split label sets have distinct labels, non-empty node lists whose size
    /// is their weight, and bounded vectors; the weights add up to at most the
    /// tree size, which is at most `SPLIT_MAX_TREE`.
    pub open spec fn wf(&self) -> bool {
        let sets = self.1@;
        &&& self.0 <= SPLIT_MAX_TREE
        &&& forall|a: int, b: int| 0 <= a < b < sets.len() ==> (#[trigger] sets[a]).base.id@ != (#[trigger] sets[b]).base.id@
        &&& forall|a: int|
            0 <= a < sets.len() ==> {
                let el = #[trigger] sets[a];
                &&& el.base.weight == el.struct_vec@.len()
                &&& el.struct_vec@.len() >= 1
                &&& forall|i: int| 0 <= i < el.struct_vec@.len() ==> split_bounded(#[trigger] el.struct_vec@[i])
            }
        &&& split_weight_sum(sets, sets.len() as int) <= self.0
    }
}

/// Adds the split counts of its node to a structural vector.
#[verifier::spinoff_prover]
fn split_vec(
    tree: &TreeArena,
    shape: &TreeShape,
    sids: &Vec<usize>,
    pre: &Vec<Vec<usize>>,
    post: &Vec<Vec<usize>>,
    anc: &Vec<Vec<usize>>,
    sv: &StructuralVec,
) -> (r: SplitStructuralVec)
    requires
        tree.is_tree(),
        tree.n() <= SPLIT_MAX_TREE,
        shape_of(*tree, *shape),
        sids@.len() == tree.n(),
        counts_ok(*tree, sids@, pre@, post@, anc@),
        forall|x: int| 0 <= x < sids@.len() ==> #[trigger] sids@[x] < 4,
        exists|y: int| 0 <= y < tree.n() && #[trigger] svec_of(*sv, *tree, y),
    ensures
        split_of(r, *sv, *tree, sids@),
        split_bounded(r),
{
    let ghost y0 = choose|y: int| 0 <= y < tree.n() && #[trigger] svec_of(*sv, *tree, y);
    let pid = sv.postorder_id;
    proof {
        lemma_post_index_range(*tree, y0);
        assert(tree.in_tree(y0));
    }
    let y = shape.postorder[pid - 1];
    proof {
        assert(y == y0);
    }
    let splits = node_splits(tree, sids, pre, post, anc, y, shape.sizes[y], pid - 1);
    let regions: [i32; 4] = [
        splits[0][0] + splits[0][1] + splits[0][2] + splits[0][3],
        splits[1][0] + splits[1][1] + splits[1][2] + splits[1][3],
        splits[2][0] + splits[2][1] + splits[2][2] + splits[2][3],
        splits[3][0] + splits[3][1] + splits[3][2] + splits[3][3],
    ];
    let r = SplitStructuralVec {
        svec: StructuralVec { label_id: sv.label_id.clone(), postorder_id: pid, mapping_regions: regions },
        mapping_region_splits: splits,
    };
    proof {
        assert forall|r2: int| 0 <= r2 < 4 implies #[trigger] r.svec.mapping_regions@[r2] == row_sum(r.mapping_region_splits, r2) by {
            assert(0 <= r2 < 4);
        }
        lemma_split_rows(*tree, *shape, sids@, y as int);
        assert(r.svec.mapping_regions@.map_values(|x: i32| x as int) =~= regions_of(*tree, y as int)) by {
            assert forall|r2: int| 0 <= r2 < 4 implies r.svec.mapping_regions@[r2] == #[trigger] regions_of(*tree, y as int)[r2] by {
                assert(r.svec.mapping_regions@[r2] == row_sum(r.mapping_region_splits, r2));
            }
        }
        assert(svec_of(r.svec, *tree, y as int));
        assert(split_svec_of(r, *tree, sids@, y as int));
        assert forall|x: int| 0 <= x < tree.n() && #[trigger] svec_of(*sv, *tree, x) implies x == y by {
            lemma_post_index_range(*tree, x);
            assert(tree.in_tree(x));
            assert(shape.postorder@[tree.post_index(x)] as int == x);
        }
    }
    r
}

/// A label set whose vectors all gain their split counts is a split label
/// set.
proof fn lemma_split_element_of(r: SplitLabelSetElement, el: LabelSetElement, t: TreeArena, sids: Seq<usize>)
    requires
        element_of(el, t),
        r.base.id@ == el.base.id@,
        r.base.weight == el.base.weight,
        r.base.weigh_so_far == el.base.weigh_so_far,
        r.struct_vec@.len() == el.struct_vec@.len(),
        forall|i: int| 0 <= i < r.struct_vec@.len() ==> split_of(#[trigger] r.struct_vec@[i], el.struct_vec@[i], t, sids),
    ensures
        split_element_of(r, t, sids),
{
    let w = r.struct_vec@;
    let v = el.struct_vec@;
    let l = r.base.id@;
    assert forall|i: int, k: int| 0 <= i < k < w.len() implies (#[trigger] w[i]).svec.postorder_id < (#[trigger] w[k]).svec.postorder_id by {
        assert(split_of(w[i], v[i], t, sids));
        assert(split_of(w[k], v[k], t, sids));
    }
    assert forall|i: int| 0 <= i < w.len() implies describes_split_node(#[trigger] w[i], t, sids, l) by {
        assert(describes_node(v[i], t, l));
        let y = choose|y: int| 0 <= y < t.n() && t.label(y) == l && #[trigger] svec_of(v[i], t, y);
        assert(split_of(w[i], v[i], t, sids));
        assert(split_svec_of(w[i], t, sids, y));
    }
    assert forall|y: int| 0 <= y < t.n() && #[trigger] t.label(y) == l implies exists|i: int|
        0 <= i < w.len() && split_svec_of(#[trigger] w[i], t, sids, y) by {
        let i = choose|i: int| 0 <= i < v.len() && svec_of(#[trigger] v[i], t, y);
        assert(split_of(w[i], v[i], t, sids));
        assert(split_svec_of(w[i], t, sids, y));
    }
}

/// Adds the split counts to every vector of a label set.
fn split_element(
    tree: &TreeArena,
    shape: &TreeShape,
    sids: &Vec<usize>,
    pre: &Vec<Vec<usize>>,
    post: &Vec<Vec<usize>>,
    anc: &Vec<Vec<usize>>,
    el: &LabelSetElement,
) -> (r: SplitLabelSetElement)
    requires
        tree.is_tree(),
        tree.n() <= SPLIT_MAX_TREE,
        shape_of(*tree, *shape),
        sids@.len() == tree.n(),
        counts_ok(*tree, sids@, pre@, post@, anc@),
        forall|x: int| 0 <= x < sids@.len() ==> #[trigger] sids@[x] < 4,
        element_of(*el, *tree),
    ensures
        split_element_of(r, *tree, sids@),
        r.base.id@ == el.base.id@,
        r.base.weight == el.base.weight,
        forall|i: int| 0 <= i < r.struct_vec@.len() ==> split_bounded(#[trigger] r.struct_vec@[i]),
{
    let ghost v = el.struct_vec@;
    let ghost l = el.base.id@;
    let mut nv: Vec<SplitStructuralVec> = Vec::new();
    let mut j: usize = 0;
    while j < el.struct_vec.len()
        invariant
            tree.is_tree(),
            tree.n() <= SPLIT_MAX_TREE,
            shape_of(*tree, *shape),
            sids@.len() == tree.n(),
            counts_ok(*tree, sids@, pre@, post@, anc@),
            forall|x: int| 0 <= x < sids@.len() ==> #[trigger] sids@[x] < 4,
            element_of(*el, *tree),
            v == el.struct_vec@,
            l == el.base.id@,
            j <= v.len(),
            nv@.len() == j,
            forall|i: int| 0 <= i < j ==> split_of(#[trigger] nv@[i], v[i], *tree, sids@),
            forall|i: int| 0 <= i < j ==> split_bounded(#[trigger] nv@[i]),
        decreases v.len() - j,
    {
        proof {
            assert(describes_node(v[j as int], *tree, l));
        }
        let sv = split_vec(tree, shape, sids, pre, post, anc, &el.struct_vec[j]);
        nv.push(sv);
        j = j + 1;
    }
    let r = SplitLabelSetElement {
        base: LabelSetElementBase { id: el.base.id.clone(), weight: el.base.weight, weigh_so_far: el.base.weigh_so_far },
        struct_vec: nv,
    };
    proof {
        lemma_split_element_of(r, *el, *tree, sids@);
    }
    r
}

proof fn lemma_split_weight_sum(sets: Seq<SplitLabelSetElement>, base: Seq<LabelSetElement>, m: int)
    requires
        0 <= m <= sets.len(),
        sets.len() == base.len(),
        forall|a: int| 0 <= a < sets.len() ==> (#[trigger] sets[a]).base.weight == base[a].base.weight,
    ensures
        split_weight_sum(sets, m) == weight_sum(base, m),
    decreases m,
{
    if m > 0 {
        lemma_split_weight_sum(sets, base, m - 1);
        assert(sets[m - 1].base.weight == base[m - 1].base.weight);
    }
}

impl LabelSetConverter {
    /// Builds the split label sets of one tree under the partition `sids`
    /// of its slots.
    pub(crate) fn create_split_record(&self, tree: &TreeArena, sids: &Vec<usize>) -> (r: SplitStructuralFilterTuple)
        requires
            tree.is_tree(),
            tree.n() <= SPLIT_MAX_TREE,
            sids@.len() == tree.n(),
            forall|y: int| 0 <= y < sids@.len() ==> #[trigger] sids@[y] < 4,
        ensures
            r.indexes(*tree, sids@),
            r.wf(),
    {
        let base = self.create_record(tree);
        let shape = tree_shape(tree);
        let (pre, post, anc) = all_counts(tree, &shape, sids);
        let ghost b = base.1@;
        let mut sets: Vec<SplitLabelSetElement> = Vec::new();
        let mut a: usize = 0;
        while a < base.1.len()
            invariant
                tree.is_tree(),
                tree.n() <= SPLIT_MAX_TREE,
                shape_of(*tree, shape),
                sids@.len() == tree.n(),
                counts_ok(*tree, sids@, pre@, post@, anc@),
                forall|y: int| 0 <= y < sids@.len() ==> #[trigger] sids@[y] < 4,
                base.indexes(*tree),
                base.wf(),
                b == base.1@,
                a <= b.len(),
                sets@.len() == a,
                forall|c: int| 0 <= c < a ==> (#[trigger] sets@[c]).base.id@ == b[c].base.id@,
                forall|c: int| 0 <= c < a ==> (#[trigger] sets@[c]).base.weight == b[c].base.weight,
                forall|c: int| 0 <= c < a ==> split_element_of(#[trigger] sets@[c], *tree, sids@),
                forall|c: int|
                    0 <= c < a ==> forall|i: int|
                        0 <= i < (#[trigger] sets@[c]).struct_vec@.len() ==> split_bounded(#[trigger] sets@[c].struct_vec@[i]),
            decreases b.len() - a,
        {
            proof {
                assert(element_of(b[a as int], *tree));
            }
            let el = split_element(tree, &shape, sids, &pre, &post, &anc, &base.1[a]);
            sets.push(el);
            a = a + 1;
        }
        let r = SplitStructuralFilterTuple(base.0, sets);
        proof {
            let s = sets@;
            assert forall|c: int, d: int| 0 <= c < d < s.len() implies (#[trigger] s[c]).base.id@ != (#[trigger] s[d]).base.id@ by {
                assert(s[c].base.id@ == b[c].base.id@);
                assert(s[d].base.id@ == b[d].base.id@);
            }
            assert forall|y: int| 0 <= y < tree.n() implies has_split_set(s, #[trigger] tree.label(y)) by {
                assert(has_set(b, tree.label(y)));
                let c = choose|c: int| 0 <= c < b.len() && (#[trigger] b[c]).base.id@ == tree.label(y);
                assert(s[c].base.id@ == b[c].base.id@);
            }
            assert forall|c: int| 0 <= c < s.len() implies (#[trigger] s[c]).base.weight == b[c].base.weight by {}
            lemma_split_weight_sum(s, b, s.len() as int);
        }
        r
    }
}

/// `p` is a part that `split` may give a label with text `l`.
pub open spec fn part_of<F: Fn(&String) -> usize>(split: F, l: Seq<char>, p: usize) -> bool {
    exists|s: String| s@ == l && call_ensures(split, (&s,), p)
}

/// `sids` gives every slot of `t` a part that `split` may give its label.
pub open spec fn parts_by<F: Fn(&String) -> usize>(split: F, t: TreeArena, sids: Seq<usize>) -> bool {
    &&& sids.len() == t.n()
    &&& forall|y: int| 0 <= y < t.n() ==> part_of(split, t.label(y), #[trigger] sids[y])
}

/// `r` holds the split label sets of `t` under some partition of its slots
/// that `split` may give.
pub open spec fn split_sets_of<F: Fn(&String) -> usize>(split: F, t: TreeArena, r: SplitStructuralFilterTuple) -> bool {
    exists|sids: Seq<usize>| #[trigger] parts_by(split, t, sids) && r.indexes(t, sids)
}

impl LabelSetConverter {
    /// Converts each tree into its size and split label sets, where `split`
    /// assigns each label one of the `MAX_SPLIT` parts.
    pub fn create_split<F: Fn(&String) -> usize>(&mut self, trees: &[TreeArena], split: F) -> (r: Vec<
        SplitStructuralFilterTuple,
    >)
        requires
            forall|i: int| 0 <= i < trees@.len() ==> (#[trigger] trees@[i]).is_tree() && trees@[i].n() <= SPLIT_MAX_TREE,
            forall|s: String| call_requires(split, (&s,)),
            forall|s: String, p: usize| call_ensures(split, (&s,), p) ==> p < 4,
        ensures
            r@.len() == trees@.len(),
            forall|i: int| 0 <= i < trees@.len() ==> split_sets_of(split, trees@[i], #[trigger] r@[i]),
            forall|i: int| 0 <= i < trees@.len() ==> (#[trigger] r@[i]).wf(),
            *final(self) == *old(self),
    {
        let mut sets_collection: Vec<SplitStructuralFilterTuple> = Vec::new();
        let mut i: usize = 0;
        while i < trees.len()
            invariant
                i <= trees@.len(),
                forall|j: int| 0 <= j < trees@.len() ==> (#[trigger] trees@[j]).is_tree() && trees@[j].n() <= SPLIT_MAX_TREE,
                forall|s: String| call_requires(split, (&s,)),
                forall|s: String, p: usize| call_ensures(split, (&s,), p) ==> p < 4,
                sets_collection@.len() == i,
                forall|j: int| 0 <= j < i ==> split_sets_of(split, trees@[j], #[trigger] sets_collection@[j]),
                forall|j: int| 0 <= j < i ==> (#[trigger] sets_collection@[j]).wf(),
            decreases trees@.len() - i,
        {
            let tree = &trees[i];
            let n = tree.count();
            let mut sids: Vec<usize> = Vec::new();
            let mut y: usize = 0;
            while y < n
                invariant
                    tree.is_tree(),
                    n == tree.n(),
                    y <= n,
                    sids@.len() == y,
                    forall|s: String| call_requires(split, (&s,)),
                    forall|s: String, p: usize| call_ensures(split, (&s,), p) ==> p < 4,
                    forall|x: int| 0 <= x < y ==> #[trigger] sids@[x] < 4,
                    forall|x: int| 0 <= x < y ==> part_of(split, tree.label(x), #[trigger] sids@[x]),
                decreases n - y,
            {
                proof {
                    assert(tree.node_ok(y as int));
                }
                let label = tree.node(y).get();
                let p = split(label);
                proof {
                    assert(call_ensures(split, (&*label,), p));
                    assert(part_of(split, tree.label(y as int), p));
                }
                sids.push(p);
                y = y + 1;
            }
            let t = self.create_split_record(tree, &sids);
            sets_collection.push(t);
            proof {
                assert(parts_by(split, trees@[i as int], sids@));
                assert(sets_collection@[i as int].indexes(trees@[i as int], sids@));
            }
            i = i + 1;
        }
        sets_collection
    }
}

/// Sum of the smaller of each pair of split counts of region `r`.
pub open spec fn min_sum(a: [[i32; 4]; 4], b: [[i32; 4]; 4], r: int) -> int {
    let m = |i: int| if a@[r]@[i] <= b@[r]@[i] { a@[r]@[i] as int } else { b@[r]@[i] as int };
    m(0) + m(1) + m(2) + m(3)
}

/// Distance in region `r`: the larger count minus what the two nodes can
/// share within the parts.
pub open spec fn region_term(n1: SplitStructuralVec, n2: SplitStructuralVec, r: int) -> int {
    let a = n1.svec.mapping_regions@[r] as int;
    let b = n2.svec.mapping_regions@[r] as int;
    (if a >= b { a } else { b }) - min_sum(n1.mapping_region_splits, n2.mapping_region_splits, r)
}

/// Split L1 distance between two nodes: the sum of the region terms.
pub open spec fn split_dist(n1: SplitStructuralVec, n2: SplitStructuralVec) -> int {
    region_term(n1, n2, 0) + region_term(n1, n2, 1) + region_term(n1, n2, 2) + region_term(n1, n2, 3)
}

/// The region term of region `r`.
fn region_distance(n1: &SplitStructuralVec, n2: &SplitStructuralVec, r: usize) -> (d: i64)
    requires
        split_bounded(*n1),
        split_bounded(*n2),
        r < 4,
    ensures
        d as int == region_term(*n1, *n2, r as int),
        0 <= d <= 16 * SPLIT_MAX_TREE,
{
    let a = n1.svec.mapping_regions[r] as i64;
    let b = n2.svec.mapping_regions[r] as i64;
    let s1 = n1.mapping_region_splits[r];
    let s2 = n2.mapping_region_splits[r];
    proof {
        assert(n1.mapping_region_splits@[r as int] == s1);
        assert(n2.mapping_region_splits@[r as int] == s2);
        assert(n1.svec.mapping_regions@[r as int] == row_sum(n1.mapping_region_splits, r as int));
        assert forall|i: int| 0 <= i < 4 implies -2 * SPLIT_MAX_TREE <= #[trigger] s1@[i] <= 2 * SPLIT_MAX_TREE
            && -2 * SPLIT_MAX_TREE <= s2@[i] <= 2 * SPLIT_MAX_TREE by {
            assert(n1.mapping_region_splits@[r as int]@[i] == s1@[i]);
            assert(n2.mapping_region_splits@[r as int]@[i] == s2@[i]);
        }
    }
    let m0 = if s1[0] <= s2[0] { s1[0] as i64 } else { s2[0] as i64 };
    let m1 = if s1[1] <= s2[1] { s1[1] as i64 } else { s2[1] as i64 };
    let m2 = if s1[2] <= s2[2] { s1[2] as i64 } else { s2[2] as i64 };
    let m3 = if s1[3] <= s2[3] { s1[3] as i64 } else { s2[3] as i64 };
    let big = if a >= b { a } else { b };
    big - (m0 + m1 + m2 + m3)
}

/// Split L1 distance between the region vectors of two nodes.
pub fn split_svec_l1(n1: &SplitStructuralVec, n2: &SplitStructuralVec) -> (r: u32)
    requires
        split_bounded(*n1),
        split_bounded(*n2),
    ensures
        r as int == split_dist(*n1, *n2),
{
    let d0 = region_distance(n1, n2, 0);
    let d1 = region_distance(n1, n2, 1);
    let d2 = region_distance(n1, n2, 2);
    let d3 = region_distance(n1, n2, 3);
    (d0 + d1 + d2 + d3) as u32
}

/// Whether the scan of `v` from position `j` finds a partner of `n1`, as
/// `window_scan` does with the split distance.
pub open spec fn split_window_scan(n1: SplitStructuralVec, v: Seq<SplitStructuralVec>, k: int, j: int) -> bool
    decreases v.len() - j,
{
    if j < 0 || j >= v.len() {
        false
    } else {
        let kw = if n1.svec.postorder_id >= k { n1.svec.postorder_id - k } else { 0 };
        if kw < v.len() && v[j].svec.postorder_id < kw {
            split_window_scan(n1, v, k, j + 1)
        } else if v[j].svec.postorder_id > k + n1.svec.postorder_id {
            false
        } else if split_dist(n1, v[j]) <= k {
            true
        } else {
            split_window_scan(n1, v, k, j + 1)
        }
    }
}

/// Number of the first `i` vectors of `a` that have a partner in `b`.
pub open spec fn split_hits(a: Seq<SplitStructuralVec>, b: Seq<SplitStructuralVec>, k: int, i: int) -> int
    decreases i,
{
    if i <= 0 {
        0
    } else {
        split_hits(a, b, k, i - 1) + (if split_window_scan(a[i - 1], b, k, 0) { 1int } else { 0 })
    }
}

/// Number of nodes of split set `e1` matched in split set `e2`, as
/// `set_overlap` counts them.
pub open spec fn split_set_overlap(e1: SplitLabelSetElement, e2: SplitLabelSetElement, k: int) -> int {
    let v1 = e1.struct_vec@;
    let v2 = e2.struct_vec@;
    if e1.base.weight == 1 && e2.base.weight == 1 {
        if split_dist(v1[0], v2[0]) <= k { 1 } else { 0 }
    } else if e2.base.weight < e1.base.weight {
        split_hits(v2, v1, k, v2.len() as int)
    } else {
        split_hits(v1, v2, k, v1.len() as int)
    }
}

/// Position of the split set with label `l`, or -1.
pub open spec fn split_set_index(sets: Seq<SplitLabelSetElement>, l: Seq<char>) -> int {
    if has_split_set(sets, l) {
        choose|a: int| 0 <= a < sets.len() && (#[trigger] sets[a]).base.id@ == l
    } else {
        -1
    }
}

/// Number of nodes matched over the first `m` split sets of `s1`.
pub open spec fn split_overlap(s1: Seq<SplitLabelSetElement>, s2: Seq<SplitLabelSetElement>, k: int, m: int) -> int
    decreases m,
{
    if m <= 0 {
        0
    } else {
        let b = split_set_index(s2, s1[m - 1].base.id@);
        split_overlap(s1, s2, k, m - 1) + (if b < 0 { 0 } else { split_set_overlap(s1[m - 1], s2[b], k) })
    }
}

/// Number of the first `i` vectors of `a` that lie within split distance
/// `k` of some vector of `b`.
pub open spec fn split_close_count(a: Seq<SplitStructuralVec>, b: Seq<SplitStructuralVec>, k: int, i: int) -> int
    decreases i,
{
    if i <= 0 {
        0
    } else {
        split_close_count(a, b, k, i - 1) + (if exists|j: int|
            0 <= j < b.len() && split_dist(a[i - 1], #[trigger] b[j]) <= k {
            1int
        } else {
            0
        })
    }
}

/// For each of the first `m` split sets of `s1` whose label `s2` also has,
/// the larger of the two numbers of its nodes, one per side, that lie within
/// split distance `k` of a node of the same label on the other side; summed.
pub open spec fn split_close_bound(s1: Seq<SplitLabelSetElement>, s2: Seq<SplitLabelSetElement>, k: int, m: int) -> int
    decreases m,
{
    if m <= 0 {
        0
    } else {
        let b = split_set_index(s2, s1[m - 1].base.id@);
        split_close_bound(s1, s2, k, m - 1) + (if b < 0 {
            0
        } else {
            let v1 = s1[m - 1].struct_vec@;
            let v2 = s2[b].struct_vec@;
            let c1 = split_close_count(v1, v2, k, v1.len() as int);
            let c2 = split_close_count(v2, v1, k, v2.len() as int);
            if c1 >= c2 { c1 } else { c2 }
        })
    }
}

proof fn lemma_split_window_scan_close(n1: SplitStructuralVec, v: Seq<SplitStructuralVec>, k: int, j: int)
    requires
        split_window_scan(n1, v, k, j),
    ensures
        exists|x: int| 0 <= x < v.len() && split_dist(n1, #[trigger] v[x]) <= k,
    decreases v.len() - j,
{
    let kw = if n1.svec.postorder_id >= k { n1.svec.postorder_id - k } else { 0 };
    if kw < v.len() && v[j].svec.postorder_id < kw {
        lemma_split_window_scan_close(n1, v, k, j + 1);
    } else if split_dist(n1, v[j]) <= k {
        assert(0 <= j < v.len() && split_dist(n1, v[j]) <= k);
    } else {
        lemma_split_window_scan_close(n1, v, k, j + 1);
    }
}

proof fn lemma_split_hits_close(a: Seq<SplitStructuralVec>, b: Seq<SplitStructuralVec>, k: int, i: int)
    ensures
        split_hits(a, b, k, i) <= split_close_count(a, b, k, i),
    decreases i,
{
    if i > 0 {
        lemma_split_hits_close(a, b, k, i - 1);
        if split_window_scan(a[i - 1], b, k, 0) {
            lemma_split_window_scan_close(a[i - 1], b, k, 0);
        }
    }
}

/// A single node is within split distance `k` of the single node of another
/// list exactly when their split distance is at most `k`, either way round.
proof fn lemma_split_close_single(v1: Seq<SplitStructuralVec>, v2: Seq<SplitStructuralVec>, k: int)
    requires
        v1.len() == 1,
        v2.len() == 1,
    ensures
        split_close_count(v1, v2, k, 1) == (if split_dist(v1[0], v2[0]) <= k { 1int } else { 0 }),
        split_close_count(v2, v1, k, 1) == split_close_count(v1, v2, k, 1),
{
    assert(split_close_count(v1, v2, k, 0) == 0);
    assert(split_close_count(v2, v1, k, 0) == 0);
    assert(split_dist(v1[0], v2[0]) == split_dist(v2[0], v1[0]));
    if split_dist(v1[0], v2[0]) <= k {
        assert(split_dist(v1[0], v2[0]) <= k);
        assert(split_dist(v2[0], v1[0]) <= k);
    }
}

proof fn lemma_split_set_overlap_close(e1: SplitLabelSetElement, e2: SplitLabelSetElement, k: int)
    requires
        e1.base.weight == e1.struct_vec@.len(),
        e2.base.weight == e2.struct_vec@.len(),
        e1.struct_vec@.len() >= 1,
        e2.struct_vec@.len() >= 1,
    ensures
        split_set_overlap(e1, e2, k) <= split_close_count(e1.struct_vec@, e2.struct_vec@, k, e1.struct_vec@.len() as int)
            || split_set_overlap(e1, e2, k) <= split_close_count(
            e2.struct_vec@,
            e1.struct_vec@,
            k,
            e2.struct_vec@.len() as int,
        ),
        e1.base.weight == 1 && e2.base.weight == 1 ==> split_set_overlap(e1, e2, k) == split_close_count(
            e1.struct_vec@,
            e2.struct_vec@,
            k,
            1,
        ) && split_set_overlap(e1, e2, k) == split_close_count(e2.struct_vec@, e1.struct_vec@, k, 1),
{
    let v1 = e1.struct_vec@;
    let v2 = e2.struct_vec@;
    if e1.base.weight == 1 && e2.base.weight == 1 {
        lemma_split_close_single(v1, v2, k);
    } else if e2.base.weight < e1.base.weight {
        lemma_split_hits_close(v2, v1, k, v2.len() as int);
    } else {
        lemma_split_hits_close(v1, v2, k, v1.len() as int);
    }
}

/// Every node that the split structural filter counts as matched has a node
/// of the same label in the other tree within split distance `k`: over any
/// prefix of the split sets of `s1`, the overlap is at most the sum, per
/// shared label, of the larger number of such nodes on either side.
pub proof fn split_overlap_within_close_bound(s1: SplitStructuralFilterTuple, s2: SplitStructuralFilterTuple, k: int, m: int)
    requires
        s1.wf(),
        s2.wf(),
        0 <= m <= s1.1@.len(),
    ensures
        split_overlap(s1.1@, s2.1@, k, m) <= split_close_bound(s1.1@, s2.1@, k, m),
    decreases m,
{
    if m > 0 {
        split_overlap_within_close_bound(s1, s2, k, m - 1);
        let l1 = s1.1@;
        let l2 = s2.1@;
        let e1 = l1[m - 1];
        let b = split_set_index(l2, e1.base.id@);
        if b >= 0 {
            assert(0 <= b < l2.len()) by {
                let c = choose|c: int| 0 <= c < l2.len() && (#[trigger] l2[c]).base.id@ == e1.base.id@;
            }
            let e2 = l2[b];
            lemma_split_set_overlap_close(e1, e2, k);
        }
    }
}

/// When every label occurs once in each tree, the split structural filter
/// counts a label as matched exactly when its two nodes are within split
/// distance `k`: the overlap equals the number of shared labels whose single
/// nodes are that close.
pub proof fn split_overlap_of_single_nodes(s1: SplitStructuralFilterTuple, s2: SplitStructuralFilterTuple, k: int, m: int)
    requires
        s1.wf(),
        s2.wf(),
        0 <= m <= s1.1@.len(),
        forall|a: int| 0 <= a < s1.1@.len() ==> (#[trigger] s1.1@[a]).base.weight == 1,
        forall|a: int| 0 <= a < s2.1@.len() ==> (#[trigger] s2.1@[a]).base.weight == 1,
    ensures
        split_overlap(s1.1@, s2.1@, k, m) == split_close_bound(s1.1@, s2.1@, k, m),
    decreases m,
{
    if m > 0 {
        split_overlap_of_single_nodes(s1, s2, k, m - 1);
        let l1 = s1.1@;
        let l2 = s2.1@;
        let e1 = l1[m - 1];
        let b = split_set_index(l2, e1.base.id@);
        if b >= 0 {
            assert(0 <= b < l2.len()) by {
                let c = choose|c: int| 0 <= c < l2.len() && (#[trigger] l2[c]).base.id@ == e1.base.id@;
            }
            let e2 = l2[b];
            assert(e1.base.weight == 1);
            assert(e2.base.weight == 1);
            lemma_split_set_overlap_close(e1, e2, k);
        }
    }
}

/// Finds the split set of a label.
fn find_split_set(sets: &Vec<SplitLabelSetElement>, label: &String) -> (r: Option<usize>)
    ensures
        r matches Some(a) ==> a < sets@.len() && sets@[a as int].base.id@ == label@,
        r is None ==> forall|a: int| 0 <= a < sets@.len() ==> (#[trigger] sets@[a]).base.id@ != label@,
{
    let mut a: usize = 0;
    while a < sets.len()
        invariant
            a <= sets@.len(),
            forall|b: int| 0 <= b < a ==> (#[trigger] sets@[b]).base.id@ != label@,
        decreases sets@.len() - a,
    {
        if sets[a].base.id.eq(label) {
            return Some(a);
        }
        a = a + 1;
    }
    None
}

/// Searches `v` for a partner of `n1` as `split_window_scan` describes.
fn split_scan_window(n1: &SplitStructuralVec, v: &Vec<SplitStructuralVec>, k: usize) -> (r: bool)
    requires
        k < usize::MAX - SPLIT_MAX_TREE,
        split_bounded(*n1),
        forall|j: int| 0 <= j < v@.len() ==> split_bounded(#[trigger] v@[j]),
    ensures
        r == split_window_scan(*n1, v@, k as int, 0),
{
    let kw = if n1.svec.postorder_id >= k { n1.svec.postorder_id - k } else { 0 };
    let len = v.len();
    let mut j: usize = 0;
    while j < len
        invariant
            len == v@.len(),
            j <= len,
            k < usize::MAX - SPLIT_MAX_TREE,
            kw == (if n1.svec.postorder_id >= k { n1.svec.postorder_id - k } else { 0 }),
            split_bounded(*n1),
            forall|x: int| 0 <= x < v@.len() ==> split_bounded(#[trigger] v@[x]),
            split_window_scan(*n1, v@, k as int, 0) == split_window_scan(*n1, v@, k as int, j as int),
        decreases len - j,
    {
        let n2 = &v[j];
        if kw < len && n2.svec.postorder_id < kw {
            j = j + 1;
            continue;
        }
        if n2.svec.postorder_id > k + n1.svec.postorder_id {
            return false;
        }
        if split_svec_l1(n1, n2) as usize <= k {
            return true;
        }
        j = j + 1;
    }
    false
}

proof fn lemma_split_hits_bounds(a: Seq<SplitStructuralVec>, b: Seq<SplitStructuralVec>, k: int, i: int)
    requires
        0 <= i,
    ensures
        0 <= split_hits(a, b, k, i) <= i,
    decreases i,
{
    if i > 0 {
        lemma_split_hits_bounds(a, b, k, i - 1);
    }
}

/// Counts the vectors of `a` that have a partner in `b`.
fn split_count_hits(a: &Vec<SplitStructuralVec>, b: &Vec<SplitStructuralVec>, k: usize) -> (r: usize)
    requires
        k < usize::MAX - SPLIT_MAX_TREE,
        forall|j: int| 0 <= j < a@.len() ==> split_bounded(#[trigger] a@[j]),
        forall|j: int| 0 <= j < b@.len() ==> split_bounded(#[trigger] b@[j]),
    ensures
        r as int == split_hits(a@, b@, k as int, a@.len() as int),
{
    let mut c: usize = 0;
    let mut i: usize = 0;
    while i < a.len()
        invariant
            i <= a@.len(),
            k < usize::MAX - SPLIT_MAX_TREE,
            forall|j: int| 0 <= j < a@.len() ==> split_bounded(#[trigger] a@[j]),
            forall|j: int| 0 <= j < b@.len() ==> split_bounded(#[trigger] b@[j]),
            c as int == split_hits(a@, b@, k as int, i as int),
        decreases a@.len() - i,
    {
        proof {
            lemma_split_hits_bounds(a@, b@, k as int, i as int);
        }
        if split_scan_window(&a[i], b, k) {
            c = c + 1;
        }
        i = i + 1;
    }
    c
}

proof fn lemma_split_weight_sum_prefix(sets: Seq<SplitLabelSetElement>, m: int)
    requires
        0 <= m <= sets.len(),
        forall|a: int| 0 <= a < sets.len() ==> (#[trigger] sets[a]).base.weight >= 0,
    ensures
        split_weight_sum(sets, m) <= split_weight_sum(sets, sets.len() as int),
    decreases sets.len() - m,
{
    if m < sets.len() {
        lemma_split_weight_sum_prefix(sets, m + 1);
    }
}

proof fn lemma_split_overlap_bounds(s1: Seq<SplitLabelSetElement>, s2: Seq<SplitLabelSetElement>, k: int, m: int)
    requires
        0 <= m <= s1.len(),
        forall|a: int| 0 <= a < s1.len() ==> (#[trigger] s1[a]).base.weight == s1[a].struct_vec@.len() && s1[a].struct_vec@.len() >= 1,
        forall|a: int| 0 <= a < s2.len() ==> (#[trigger] s2[a]).base.weight == s2[a].struct_vec@.len() && s2[a].struct_vec@.len() >= 1,
    ensures
        0 <= split_overlap(s1, s2, k, m) <= split_weight_sum(s1, m),
    decreases m,
{
    if m > 0 {
        lemma_split_overlap_bounds(s1, s2, k, m - 1);
        let e1 = s1[m - 1];
        let b = split_set_index(s2, e1.base.id@);
        if b >= 0 {
            let e2 = s2[b];
            assert(0 <= b < s2.len()) by {
                let c = choose|c: int| 0 <= c < s2.len() && (#[trigger] s2[c]).base.id@ == e1.base.id@;
            }
            lemma_split_hits_bounds(e2.struct_vec@, e1.struct_vec@, k, e2.struct_vec@.len() as int);
            lemma_split_hits_bounds(e1.struct_vec@, e2.struct_vec@, k, e1.struct_vec@.len() as int);
        }
    }
}

/// Number of nodes of `s1` matched in `s2` within split distance `k`.
fn split_nodes_overlap(s1: &SplitStructuralFilterTuple, s2: &SplitStructuralFilterTuple, k: usize) -> (r: usize)
    requires
        s1.wf(),
        s2.wf(),
        k < usize::MAX - SPLIT_MAX_TREE,
    ensures
        r as int == split_overlap(s1.1@, s2.1@, k as int, s1.1@.len() as int),
{
    let ghost l1 = s1.1@;
    let ghost l2 = s2.1@;
    let mut c: usize = 0;
    let mut a: usize = 0;
    while a < s1.1.len()
        invariant
            s1.wf(),
            s2.wf(),
            l1 == s1.1@,
            l2 == s2.1@,
            k < usize::MAX - SPLIT_MAX_TREE,
            a <= l1.len(),
            c as int == split_overlap(l1, l2, k as int, a as int),
        decreases l1.len() - a,
    {
        proof {
            lemma_split_overlap_bounds(l1, l2, k as int, a + 1);
            lemma_split_weight_sum_prefix(l1, a + 1);
        }
        let set1 = &s1.1[a];
        match find_split_set(&s2.1, &set1.base.id) {
            Some(b) => {
                let set2 = &s2.1[b];
                proof {
                    assert(has_split_set(l2, set1.base.id@));
                    let bb = split_set_index(l2, set1.base.id@);
                    assert(0 <= bb < l2.len() && l2[bb].base.id@ == set1.base.id@);
                    if bb != b {
                        if bb < b {
                            assert(l2[bb].base.id@ != l2[b as int].base.id@);
                        } else {
                            assert(l2[b as int].base.id@ != l2[bb].base.id@);
                        }
                    }
                }
                if set1.base.weight == 1 && set2.base.weight == 1 {
                    if split_svec_l1(&set1.struct_vec[0], &set2.struct_vec[0]) as usize <= k {
                        c = c + 1;
                    }
                } else if set2.base.weight < set1.base.weight {
                    c = c + split_count_hits(&set2.struct_vec, &set1.struct_vec, k);
                } else {
                    c = c + split_count_hits(&set1.struct_vec, &set2.struct_vec, k);
                }
            },
            None => {
                proof {
                    assert(!has_split_set(l2, set1.base.id@));
                }
            },
        }
        a = a + 1;
    }
    c
}

/// Structural lower bound on the tree edit distance under a label
/// partition: `k + 1` when the tree sizes differ by more than `k`, else the
/// larger size minus the number of nodes matched within split distance `k`
/// (at least 0).
pub fn ted_variant(s1: &SplitStructuralFilterTuple, s2: &SplitStructuralFilterTuple, k: usize) -> (r: usize)
    requires
        s1.wf(),
        s2.wf(),
        k < usize::MAX - SPLIT_MAX_TREE,
    ensures
        r as int == (if s1.0 - s2.0 > k || s2.0 - s1.0 > k {
            k + 1
        } else {
            let bigger = if s1.0 >= s2.0 { s1.0 as int } else { s2.0 as int };
            let ov = split_overlap(s1.1@, s2.1@, k as int, s1.1@.len() as int);
            if bigger >= ov { bigger - ov } else { 0 }
        }),
        !(s1.0 - s2.0 > k || s2.0 - s1.0 > k) ==> r as int >= (if s1.0 >= s2.0 {
            s1.0 as int
        } else {
            s2.0 as int
        }) - split_close_bound(s1.1@, s2.1@, k as int, s1.1@.len() as int),
        !(s1.0 - s2.0 > k || s2.0 - s1.0 > k) && (forall|a: int|
            0 <= a < s1.1@.len() ==> (#[trigger] s1.1@[a]).base.weight == 1) && (forall|a: int|
            0 <= a < s2.1@.len() ==> (#[trigger] s2.1@[a]).base.weight == 1) ==> r as int == (if s1.0 >= s2.0 {
            s1.0 as int
        } else {
            s2.0 as int
        }) - split_close_bound(s1.1@, s2.1@, k as int, s1.1@.len() as int),
{
    let diff = if s1.0 >= s2.0 { s1.0 - s2.0 } else { s2.0 - s1.0 };
    if diff > k {
        return k + 1;
    }
    let bigger = if s1.0 >= s2.0 { s1.0 } else { s2.0 };
    let overlap = split_nodes_overlap(s1, s2, k);
    proof {
        split_overlap_within_close_bound(*s1, *s2, k as int, s1.1@.len() as int);
        lemma_split_overlap_bounds(s1.1@, s2.1@, k as int, s1.1@.len() as int);
        if (forall|a: int| 0 <= a < s1.1@.len() ==> (#[trigger] s1.1@[a]).base.weight == 1) && (forall|a: int|
            0 <= a < s2.1@.len() ==> (#[trigger] s2.1@[a]).base.weight == 1) {
            split_overlap_of_single_nodes(*s1, *s2, k as int, s1.1@.len() as int);
        }
    }
    bigger.saturating_sub(overlap)
}

} // verus!
