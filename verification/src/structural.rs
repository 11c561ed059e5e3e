//! Structural filter: a lower bound on the tree edit distance from label sets
//! whose nodes carry the sizes of the four regions around them (nodes to the
//! left, ancestors, nodes to the right, descendants).  Two nodes with the same
//! label can only be mapped onto each other when their region vectors are
//! within L1 distance `k`.

use crate::edit_distance::MAX_SEQ_LEN;
use crate::traversal::{shape_of, tree_shape};
use crate::tree::TreeArena;
use vstd::prelude::*;

verus! {

/// Index of the region of nodes to the left.
pub const REGION_LEFT_IDX: usize = 0;

/// Index of the region of ancestors.
pub const REGION_ANC_IDX: usize = 1;

/// Index of the region of nodes to the right.
pub const REGION_RIGHT_IDX: usize = 2;

/// Index of the region of descendants.
pub const REGION_DESC_IDX: usize = 3;

/// A node of a label set: its label, its 1-based postorder id, and the number
/// of nodes to its left, its ancestors, the nodes to its right and its
/// descendants.
#[derive(Debug, Clone, PartialEq)]
pub struct StructuralVec {
    pub label_id: String,
    pub postorder_id: usize,
    pub mapping_regions: [i32; 4],
}

impl Default for StructuralVec {
    fn default() -> (r: StructuralVec)
        ensures
            r.label_id@ == Seq::<char>::empty(),
            r.postorder_id == 0,
            r.mapping_regions@ == seq![0i32, 0i32, 0i32, 0i32],
    {
        StructuralVec { label_id: String::new(), postorder_id: 0, mapping_regions: [0, 0, 0, 0] }
    }
}

/// The data of a label set: its label, the number of nodes, and a running
/// weight left at 0.
#[derive(Debug, Clone, PartialEq)]
pub struct LabelSetElementBase {
    pub id: String,
    pub weight: usize,
    pub weigh_so_far: usize,
}

/// All nodes of one label, in postorder.
#[derive(Debug, Clone, PartialEq)]
pub struct LabelSetElement {
    pub base: LabelSetElementBase,
    pub struct_vec: Vec<StructuralVec>,
}

/// A structural vector whose regions are also split by a label partition.
#[derive(Debug, Clone, PartialEq)]
pub struct SplitStructuralVec {
    pub svec: StructuralVec,
    pub mapping_region_splits: [[i32; 4]; 4],
}

/// All nodes of one label with split region vectors, in postorder.
#[derive(Debug, Clone, PartialEq)]
pub struct SplitLabelSetElement {
    pub base: LabelSetElementBase,
    pub struct_vec: Vec<SplitStructuralVec>,
}

/// A tree as its size and its label sets, one per label.
#[derive(Debug, Clone)]
pub struct StructuralFilterTuple(pub usize, pub Vec<LabelSetElement>);

/// A tree as its size and its split label sets, one per label.
#[derive(Debug, Clone)]
pub struct SplitStructuralFilterTuple(pub usize, pub Vec<SplitLabelSetElement>);

/// The region vector of slot `y` of `t`.
pub open spec fn regions_of(t: TreeArena, y: int) -> Seq<int> {
    seq![t.preceding(y), t.depth(y), t.following(y), t.size(y) - 1]
}

/// `sv` describes slot `y` of `t`.
pub open spec fn svec_of(sv: StructuralVec, t: TreeArena, y: int) -> bool {
    &&& sv.label_id@ == t.label(y)
    &&& sv.postorder_id == t.post_index(y) + 1
    &&& sv.mapping_regions@.map_values(|x: i32| x as int) == regions_of(t, y)
}

/// `sv` describes a node of `t` with label `l`.
pub open spec fn describes_node(sv: StructuralVec, t: TreeArena, l: Seq<char>) -> bool {
    exists|y: int| 0 <= y < t.n() && t.label(y) == l && #[trigger] svec_of(sv, t, y)
}

/// `sv` describes a node of `t` with label `l` at a postorder position
/// before `p`.
pub open spec fn describes_node_before(sv: StructuralVec, t: TreeArena, l: Seq<char>, p: int) -> bool {
    exists|x: int| 0 <= x < t.n() && 0 <= t.post_index(x) < p && t.label(x) == l && #[trigger] svec_of(sv, t, x)
}

/// `el` is the label set of label `el.base.id` in `t`: one vector per node
/// with that label, in postorder.
pub open spec fn element_of(el: LabelSetElement, t: TreeArena) -> bool {
    let l = el.base.id@;
    let v = el.struct_vec@;
    &&& el.base.weight == v.len()
    &&& el.base.weigh_so_far == 0
    &&& v.len() >= 1
    &&& forall|i: int, j: int| 0 <= i < j < v.len() ==> (#[trigger] v[i]).postorder_id < (#[trigger] v[j]).postorder_id
    &&& forall|i: int|
        0 <= i < v.len() ==> describes_node(#[trigger] v[i], t, l)
    &&& forall|y: int|
        0 <= y < t.n() && #[trigger] t.label(y) == l ==> exists|i: int| 0 <= i < v.len() && svec_of(#[trigger] v[i], t, y)
}

impl StructuralFilterTuple {
    /// The tuple holds the size of `t` and exactly one label set per label of
    /// `t`.
    pub open spec fn indexes(&self, t: TreeArena) -> bool {
        let sets = self.1@;
        &&& self.0 == t.n()
        &&& forall|a: int, b: int| 0 <= a < b < sets.len() ==> (#[trigger] sets[a]).base.id@ != (#[trigger] sets[b]).base.id@
        &&& forall|a: int| 0 <= a < sets.len() ==> element_of(#[trigger] sets[a], t)
        &&& forall|y: int| 0 <= y < t.n() ==> has_set(sets, #[trigger] t.label(y))
    }

    /// Label sets have distinct labels, non-empty node lists whose size is
    /// their weight, and region counts within `MAX_SEQ_LEN`; the weights add
    /// up to at most the tree size.
    pub open spec fn wf(&self) -> bool {
        let sets = self.1@;
        &&& self.0 <= MAX_SEQ_LEN
        &&& forall|a: int, b: int| 0 <= a < b < sets.len() ==> (#[trigger] sets[a]).base.id@ != (#[trigger] sets[b]).base.id@
        &&& forall|a: int|
            0 <= a < sets.len() ==> {
                let el = #[trigger] sets[a];
                &&& el.base.weight == el.struct_vec@.len()
                &&& el.struct_vec@.len() >= 1
                &&& forall|i: int| 0 <= i < el.struct_vec@.len() ==> svec_bounded(#[trigger] el.struct_vec@[i])
            }
        &&& weight_sum(sets, sets.len() as int) <= self.0
    }

    /// The label set of a label, if the tree has that label.
    pub fn get(&self, label: &str) -> (r: Option<&LabelSetElement>)
        ensures
            r matches Some(el) ==> exists|a: int| 0 <= a < self.1@.len() && self.1@[a] == *el && el.base.id@ == label@,
            r is None ==> forall|a: int| 0 <= a < self.1@.len() ==> (#[trigger] self.1@[a]).base.id@ != label@,
    {
        let target = label.to_owned();
        let mut a: usize = 0;
        while a < self.1.len()
            invariant
                a <= self.1@.len(),
                target@ == label@,
                forall|b: int| 0 <= b < a ==> (#[trigger] self.1@[b]).base.id@ != label@,
            decreases self.1@.len() - a,
        {
            if self.1[a].base.id.eq(&target) {
                return Some(&self.1[a]);
            }
            a = a + 1;
        }
        None
    }
}

/// Some set has label `l`.
pub open spec fn has_set(sets: Seq<LabelSetElement>, l: Seq<char>) -> bool {
    exists|a: int| 0 <= a < sets.len() && (#[trigger] sets[a]).base.id@ == l
}

/// Region counts of a vector stay within `MAX_SEQ_LEN`.
pub open spec fn svec_bounded(sv: StructuralVec) -> bool {
    &&& forall|r: int| 0 <= r < 4 ==> 0 <= #[trigger] sv.mapping_regions@[r] <= MAX_SEQ_LEN
    &&& sv.postorder_id <= MAX_SEQ_LEN
}

/// Sum of the weights of the first `m` label sets.
pub open spec fn weight_sum(sets: Seq<LabelSetElement>, m: int) -> int
    decreases m,
{
    if m <= 0 {
        0
    } else {
        weight_sum(sets, m - 1) + sets[m - 1].base.weight
    }
}

proof fn lemma_weight_sum_push(sets: Seq<LabelSetElement>, el: LabelSetElement, m: int)
    requires
        0 <= m <= sets.len(),
    ensures
        weight_sum(sets.push(el), m) == weight_sum(sets, m),
    decreases m,
{
    if m > 0 {
        lemma_weight_sum_push(sets, el, m - 1);
    }
}

proof fn lemma_weight_sum_update(sets: Seq<LabelSetElement>, a: int, el: LabelSetElement, m: int)
    requires
        0 <= a < sets.len(),
        0 <= m <= sets.len(),
    ensures
        weight_sum(sets.update(a, el), m) == weight_sum(sets, m) + (if a < m {
            el.base.weight - sets[a].base.weight
        } else {
            0
        }),
    decreases m,
{
    if m > 0 {
        lemma_weight_sum_update(sets, a, el, m - 1);
    }
}

/// Builds label sets from trees, one tuple per tree.
#[derive(Debug)]
pub struct LabelSetConverter {
    actual_depth: [i32; 4],
    actual_pre_order_number: [i32; 4],
    tree_size_by_split_id: [i32; 4],
}

impl LabelSetConverter {
    /// No tree has been converted yet: every per-split counter is zero.
    pub closed spec fn is_fresh(&self) -> bool {
        &&& self.actual_depth@ == seq![0i32, 0, 0, 0]
        &&& self.actual_pre_order_number@ == seq![0i32, 0, 0, 0]
        &&& self.tree_size_by_split_id@ == seq![0i32, 0, 0, 0]
    }
}

impl Default for LabelSetConverter {
    fn default() -> (r: LabelSetConverter)
        ensures
            r.is_fresh(),
    {
        LabelSetConverter {
            actual_depth: [0, 0, 0, 0],
            actual_pre_order_number: [0, 0, 0, 0],
            tree_size_by_split_id: [0, 0, 0, 0],
        }
    }
}

/// Finds the label set of a label.
pub(crate) fn find_set(sets: &Vec<LabelSetElement>, label: &String) -> (r: Option<usize>)
    ensures
        r matches Some(a) ==> a < sets@.len() && sets@[a as int].base.id@ == label@,
        r is None ==> forall|a: int| 0 <= a < sets@.len() ==> (#[trigger] sets@[a]).base.id@ != label@,
{
    let mut a: usize = 0;
    while a < sets.len()
        invariant
            a <= sets@.len(),
            forall|b: int| 0 <= b < a ==> (#[trigger] sets@[b]).base.id@ != label@,
        decreases sets@.len() - a,
    {
        if sets[a].base.id.eq(label) {
            return Some(a);
        }
        a = a + 1;
    }
    None
}

/// `el` is a non-empty label set whose vectors, sorted by postorder id,
/// describe nodes with its label at postorder positions before `p`.
pub open spec fn set_ok(el: LabelSetElement, t: TreeArena, p: int) -> bool {
    let v = el.struct_vec@;
    &&& el.base.weight == v.len()
    &&& el.base.weigh_so_far == 0
    &&& v.len() >= 1
    &&& forall|i: int, j: int| 0 <= i < j < v.len() ==> (#[trigger] v[i]).postorder_id < (#[trigger] v[j]).postorder_id
    &&& forall|i: int| 0 <= i < v.len() ==> svec_bounded(#[trigger] v[i])
    &&& forall|i: int| 0 <= i < v.len() ==> describes_node_before(#[trigger] v[i], t, el.base.id@, p)
}

/// Label sets have distinct labels.
pub open spec fn distinct_ids(sets: Seq<LabelSetElement>) -> bool {
    forall|a: int, b: int| 0 <= a < b < sets.len() ==> (#[trigger] sets[a]).base.id@ != (#[trigger] sets[b]).base.id@
}

/// Every node at a postorder position before `p` has its vector in the set
/// of its label.
pub open spec fn covered(sets: Seq<LabelSetElement>, t: TreeArena, p: int) -> bool {
    forall|y: int|
        0 <= y < t.n() && 0 <= #[trigger] t.post_index(y) < p ==> exists|a: int, i: int|
            0 <= a < sets.len() && sets[a].base.id@ == t.label(y) && 0 <= i < sets[a].struct_vec@.len()
                && #[trigger] svec_of(sets[a].struct_vec@[i], t, y)
}

/// The label sets built from the nodes at postorder positions before `p`.
#[verifier::opaque]
pub open spec fn sets_so_far(sets: Seq<LabelSetElement>, t: TreeArena, p: int) -> bool {
    &&& distinct_ids(sets)
    &&& forall|a: int| 0 <= a < sets.len() ==> set_ok(#[trigger] sets[a], t, p)
    &&& covered(sets, t, p)
    &&& weight_sum(sets, sets.len() as int) == p
}

proof fn lemma_weight_le_sum(sets: Seq<LabelSetElement>, a: int, m: int)
    requires
        0 <= a < m <= sets.len(),
    ensures
        sets[a].base.weight <= weight_sum(sets, m),
    decreases m,
{
    if m - 1 > a {
        lemma_weight_le_sum(sets, a, m - 1);
    } else {
        lemma_weight_sum_nonneg(sets, m - 1);
    }
}

proof fn lemma_weight_sum_nonneg(sets: Seq<LabelSetElement>, m: int)
    ensures
        0 <= weight_sum(sets, m),
    decreases m,
{
    if m > 0 {
        lemma_weight_sum_nonneg(sets, m - 1);
    }
}

proof fn lemma_set_ok_grow(el: LabelSetElement, t: TreeArena, p: int)
    requires
        set_ok(el, t, p),
    ensures
        set_ok(el, t, p + 1),
{
    let v = el.struct_vec@;
    assert forall|i: int| 0 <= i < v.len() implies describes_node_before(#[trigger] v[i], t, el.base.id@, p + 1) by {
        assert(describes_node_before(v[i], t, el.base.id@, p));
        let x = choose|x: int| 0 <= x < t.n() && 0 <= t.post_index(x) < p && t.label(x) == el.base.id@ && #[trigger] svec_of(v[i], t, x);
        assert(svec_of(v[i], t, x));
    }
}

proof fn lemma_set_ok_extend(old_el: LabelSetElement, el: LabelSetElement, sv: StructuralVec, t: TreeArena, p: int, y: int)
    requires
        set_ok(old_el, t, p),
        el.base.id == old_el.base.id,
        el.base.weight == old_el.base.weight + 1,
        el.base.weigh_so_far == old_el.base.weigh_so_far,
        el.struct_vec@ == old_el.struct_vec@.push(sv),
        old_el.base.id@ == t.label(y),
        0 <= y < t.n(),
        t.post_index(y) == p,
        svec_of(sv, t, y),
        svec_bounded(sv),
    ensures
        set_ok(el, t, p + 1),
{
    lemma_set_ok_grow(old_el, t, p);
    let v = el.struct_vec@;
    let ov = old_el.struct_vec@;
    assert forall|i: int, j: int| 0 <= i < j < v.len() implies (#[trigger] v[i]).postorder_id < (#[trigger] v[j]).postorder_id by {
        assert(v[i] == ov[i]);
        if j == v.len() - 1 {
            assert(describes_node_before(ov[i], t, old_el.base.id@, p + 1));
            let x = choose|x: int| 0 <= x < t.n() && 0 <= t.post_index(x) < p + 1 && t.label(x) == old_el.base.id@ && #[trigger] svec_of(ov[i], t, x);
            assert(svec_of(ov[i], t, x));
        } else {
            assert(v[j] == ov[j]);
        }
    }
    assert forall|i: int| 0 <= i < v.len() implies describes_node_before(#[trigger] v[i], t, el.base.id@, p + 1) by {
        if i == v.len() - 1 {
            assert(svec_of(v[i], t, y));
        } else {
            assert(v[i] == ov[i]);
            assert(describes_node_before(ov[i], t, old_el.base.id@, p + 1));
        }
    }
    assert forall|i: int| 0 <= i < v.len() implies svec_bounded(#[trigger] v[i]) by {
        if i < v.len() - 1 {
            assert(v[i] == ov[i]);
        }
    }
}

/// Adding the vector of the node at postorder position `p` to the existing
/// set `a` of its label.
proof fn lemma_sets_step_update(
    old_sets: Seq<LabelSetElement>,
    t: TreeArena,
    p: int,
    a: int,
    el: LabelSetElement,
    sv: StructuralVec,
    y: int,
)
    requires
        sets_so_far(old_sets, t, p),
        0 <= a < old_sets.len(),
        old_sets[a].base.id@ == t.label(y),
        el.base.id == old_sets[a].base.id,
        el.base.weight == old_sets[a].base.weight + 1,
        el.base.weigh_so_far == old_sets[a].base.weigh_so_far,
        el.struct_vec@ == old_sets[a].struct_vec@.push(sv),
        0 <= y < t.n(),
        t.post_index(y) == p,
        svec_of(sv, t, y),
        svec_bounded(sv),
        forall|x: int| 0 <= x < t.n() && t.post_index(x) == p ==> x == y,
    ensures
        sets_so_far(old_sets.update(a, el), t, p + 1),
{
    reveal(sets_so_far);
    let sets = old_sets.update(a, el);
    lemma_weight_sum_update(old_sets, a, el, old_sets.len() as int);
    assert forall|b: int| 0 <= b < sets.len() implies set_ok(#[trigger] sets[b], t, p + 1) by {
        if b == a {
            lemma_set_ok_extend(old_sets[a], el, sv, t, p, y);
        } else {
            lemma_set_ok_grow(old_sets[b], t, p);
        }
    }
    assert forall|x: int|
        0 <= x < t.n() && 0 <= #[trigger] t.post_index(x) < p + 1 implies exists|b: int, i: int|
            0 <= b < sets.len() && sets[b].base.id@ == t.label(x) && 0 <= i < sets[b].struct_vec@.len()
                && #[trigger] svec_of(sets[b].struct_vec@[i], t, x) by {
        if t.post_index(x) == p {
            assert(x == y);
            let i = el.struct_vec@.len() - 1;
            assert(svec_of(sets[a].struct_vec@[i], t, x));
        } else {
            let (b, i) = choose|b: int, i: int|
                0 <= b < old_sets.len() && old_sets[b].base.id@ == t.label(x) && 0 <= i < old_sets[b].struct_vec@.len()
                    && #[trigger] svec_of(old_sets[b].struct_vec@[i], t, x);
            if b == a {
                assert(sets[a].struct_vec@[i] == old_sets[a].struct_vec@[i]);
            }
            assert(svec_of(sets[b].struct_vec@[i], t, x));
        }
    }
    assert forall|b1: int, b2: int| 0 <= b1 < b2 < sets.len() implies (#[trigger] sets[b1]).base.id@ != (#[trigger] sets[b2]).base.id@ by {
        assert(old_sets[b1].base.id@ != old_sets[b2].base.id@);
    }
}

/// Adding the vector of the node at postorder position `p` as a new set.
proof fn lemma_sets_step_push(
    old_sets: Seq<LabelSetElement>,
    t: TreeArena,
    p: int,
    el: LabelSetElement,
    sv: StructuralVec,
    y: int,
)
    requires
        sets_so_far(old_sets, t, p),
        forall|a: int| 0 <= a < old_sets.len() ==> (#[trigger] old_sets[a]).base.id@ != t.label(y),
        el.base.id@ == t.label(y),
        el.base.weight == 1,
        el.base.weigh_so_far == 0,
        el.struct_vec@ == seq![sv],
        0 <= y < t.n(),
        t.post_index(y) == p,
        svec_of(sv, t, y),
        svec_bounded(sv),
        forall|x: int| 0 <= x < t.n() && t.post_index(x) == p ==> x == y,
    ensures
        sets_so_far(old_sets.push(el), t, p + 1),
{
    reveal(sets_so_far);
    let sets = old_sets.push(el);
    let m = old_sets.len() as int;
    lemma_weight_sum_push(old_sets, el, m);
    assert forall|b: int| 0 <= b < sets.len() implies set_ok(#[trigger] sets[b], t, p + 1) by {
        if b == m {
            assert(svec_of(el.struct_vec@[0], t, y));
        } else {
            lemma_set_ok_grow(old_sets[b], t, p);
        }
    }
    assert forall|x: int|
        0 <= x < t.n() && 0 <= #[trigger] t.post_index(x) < p + 1 implies exists|b: int, i: int|
            0 <= b < sets.len() && sets[b].base.id@ == t.label(x) && 0 <= i < sets[b].struct_vec@.len()
                && #[trigger] svec_of(sets[b].struct_vec@[i], t, x) by {
        if t.post_index(x) == p {
            assert(x == y);
            assert(svec_of(sets[m].struct_vec@[0], t, x));
        } else {
            let (b, i) = choose|b: int, i: int|
                0 <= b < old_sets.len() && old_sets[b].base.id@ == t.label(x) && 0 <= i < old_sets[b].struct_vec@.len()
                    && #[trigger] svec_of(old_sets[b].struct_vec@[i], t, x);
            assert(svec_of(sets[b].struct_vec@[i], t, x));
        }
    }
    assert forall|b1: int, b2: int| 0 <= b1 < b2 < sets.len() implies (#[trigger] sets[b1]).base.id@ != (#[trigger] sets[b2]).base.id@ by {
        if b2 < m {
            assert(old_sets[b1].base.id@ != old_sets[b2].base.id@);
        }
    }
}

/// A set built once every node is covered is the label set of its label.
proof fn lemma_element_done(sets: Seq<LabelSetElement>, t: TreeArena, a: int)
    requires
        t.is_tree(),
        0 <= a < sets.len(),
        distinct_ids(sets),
        set_ok(sets[a], t, t.n()),
        covered(sets, t, t.n()),
    ensures
        element_of(sets[a], t),
{
    let n = t.n();
    let el = sets[a];
    let v = el.struct_vec@;
    let l = el.base.id@;
    assert forall|i: int| 0 <= i < v.len() implies describes_node(#[trigger] v[i], t, l) by {
        assert(describes_node_before(v[i], t, l, n));
        let x = choose|x: int| 0 <= x < t.n() && 0 <= t.post_index(x) < n && t.label(x) == l && #[trigger] svec_of(v[i], t, x);
        assert(svec_of(v[i], t, x));
    }
    assert forall|y: int| 0 <= y < t.n() && #[trigger] t.label(y) == l implies exists|i: int| 0 <= i < v.len() && svec_of(#[trigger] v[i], t, y) by {
        crate::traversal::lemma_post_index_range(t, y);
        assert(0 <= t.post_index(y) < n);
        let (b, i) = choose|b: int, i: int|
            0 <= b < sets.len() && sets[b].base.id@ == t.label(y) && 0 <= i < sets[b].struct_vec@.len()
                && #[trigger] svec_of(sets[b].struct_vec@[i], t, y);
        if b != a {
            if b < a {
                assert(sets[b].base.id@ != sets[a].base.id@);
            } else {
                assert(sets[a].base.id@ != sets[b].base.id@);
            }
        }
        assert(svec_of(v[i], t, y));
    }
}

/// Once every node is covered, every label of the tree has a set.
proof fn lemma_labels_done(sets: Seq<LabelSetElement>, t: TreeArena)
    requires
        t.is_tree(),
        covered(sets, t, t.n()),
    ensures
        forall|y: int| 0 <= y < t.n() ==> has_set(sets, #[trigger] t.label(y)),
{
    let n = t.n();
    assert forall|y: int| 0 <= y < n implies has_set(sets, #[trigger] t.label(y)) by {
        crate::traversal::lemma_post_index_range(t, y);
        assert(0 <= t.post_index(y) < n);
        let (a, i) = choose|a: int, i: int|
            0 <= a < sets.len() && sets[a].base.id@ == t.label(y) && 0 <= i < sets[a].struct_vec@.len()
                && #[trigger] svec_of(sets[a].struct_vec@[i], t, y);
        assert(sets[a].base.id@ == t.label(y));
    }
}

/// Once every node is covered, the sets describe the whole tree.
proof fn lemma_sets_done(sets: Seq<LabelSetElement>, t: TreeArena)
    requires
        t.is_tree(),
        sets_so_far(sets, t, t.n()),
    ensures
        distinct_ids(sets),
        forall|a: int| 0 <= a < sets.len() ==> element_of(#[trigger] sets[a], t),
        forall|y: int| 0 <= y < t.n() ==> has_set(sets, #[trigger] t.label(y)),
        forall|a: int| 0 <= a < sets.len() ==> set_ok(#[trigger] sets[a], t, t.n()),
        weight_sum(sets, sets.len() as int) == t.n(),
{
    reveal(sets_so_far);
    lemma_labels_done(sets, t);
    assert forall|a: int| 0 <= a < sets.len() implies element_of(#[trigger] sets[a], t) by {
        lemma_element_done(sets, t, a);
    }
}

impl LabelSetConverter {
    pub const MAX_SPLIT: usize = 4;

    /// Builds the label sets of one tree by visiting its nodes in postorder.
    #[verifier::rlimit(40)]
    pub(crate) fn create_record(&self, tree: &TreeArena) -> (r: StructuralFilterTuple)
        requires
            tree.is_tree(),
        ensures
            r.indexes(*tree),
            r.wf(),
    {
        let shape = tree_shape(tree);
        let n = tree.count();
        let mut sets: Vec<LabelSetElement> = Vec::new();
        proof {
            reveal(sets_so_far);
        }
        let mut p: usize = 0;
        while p < n
            invariant
                tree.is_tree(),
                n == tree.n(),
                shape_of(*tree, shape),
                p <= n,
                sets_so_far(sets@, *tree, p as int),
            decreases n - p,
        {
            let y = shape.postorder[p];
            proof {
                assert(tree.in_tree(shape.postorder@[p as int] as int));
                assert(tree.post_index(shape.postorder@[p as int] as int) == p);
                assert(tree.node_ok(y as int));
                crate::traversal::lemma_depth_le_index(*tree, y as int);
            }
            let size = shape.sizes[y];
            let depth = shape.depths[y];
            let pid = p + 1;
            let regions: [i32; 4] = [
                (pid - size) as i32,
                depth as i32,
                (n - (pid + depth)) as i32,
                (size - 1) as i32,
            ];
            let label = tree.node(y).get();
            let sv = StructuralVec { label_id: label.clone(), postorder_id: pid, mapping_regions: regions };
            proof {
                assert(sv.mapping_regions@.map_values(|x: i32| x as int) =~= regions_of(*tree, y as int));
                assert(svec_of(sv, *tree, y as int));
                assert forall|x: int| 0 <= x < n && tree.post_index(x) == p implies x == y by {
                    assert(shape.postorder@[tree.post_index(x)] as int == x);
                }
            }
            let ghost old_sets = sets@;
            proof {
                assert(svec_bounded(sv));
            }
            match find_set(&sets, label) {
                Some(a) => {
                    proof {
                        reveal(sets_so_far);
                        lemma_weight_le_sum(old_sets, a as int, old_sets.len() as int);
                    }
                    let mut el = sets.remove(a);
                    el.struct_vec.push(sv);
                    el.base.weight = el.base.weight + 1;
                    sets.insert(a, el);
                    proof {
                        assert(sets@ =~= old_sets.update(a as int, el));
                        lemma_sets_step_update(old_sets, *tree, p as int, a as int, el, sv, y as int);
                    }
                },
                None => {
                    let mut v: Vec<StructuralVec> = Vec::new();
                    v.push(sv);
                    let el = LabelSetElement {
                        base: LabelSetElementBase { id: label.clone(), weight: 1, weigh_so_far: 0 },
                        struct_vec: v,
                    };
                    proof {
                        assert(el.struct_vec@ =~= seq![sv]);
                    }
                    sets.push(el);
                    proof {
                        lemma_sets_step_push(old_sets, *tree, p as int, el, sv, y as int);
                    }
                },
            }
            p = p + 1;
        }
        proof {
            lemma_sets_done(sets@, *tree);
        }
        StructuralFilterTuple(n, sets)
    }

    /// Converts each tree into its size and label sets.
    pub fn create(&mut self, trees: &[TreeArena]) -> (r: Vec<StructuralFilterTuple>)
        requires
            forall|i: int| 0 <= i < trees@.len() ==> (#[trigger] trees@[i]).is_tree(),
        ensures
            r@.len() == trees@.len(),
            forall|i: int| 0 <= i < trees@.len() ==> (#[trigger] r@[i]).indexes(trees@[i]) && r@[i].wf(),
            *final(self) == *old(self),
    {
        let mut sets_collection: Vec<StructuralFilterTuple> = Vec::new();
        let mut i: usize = 0;
        while i < trees.len()
            invariant
                i <= trees@.len(),
                forall|j: int| 0 <= j < trees@.len() ==> (#[trigger] trees@[j]).is_tree(),
                sets_collection@.len() == i,
                forall|j: int| 0 <= j < i ==> (#[trigger] sets_collection@[j]).indexes(trees@[j]) && sets_collection@[j].wf(),
            decreases trees@.len() - i,
        {
            let t = self.create_record(&trees[i]);
            sets_collection.push(t);
            i = i + 1;
        }
        sets_collection
    }
}

/// L1 distance between the region vectors of two nodes.
pub open spec fn l1_dist(a: StructuralVec, b: StructuralVec) -> int {
    let d = |r: int| if a.mapping_regions@[r] >= b.mapping_regions@[r] {
        a.mapping_regions@[r] - b.mapping_regions@[r]
    } else {
        b.mapping_regions@[r] - a.mapping_regions@[r]
    };
    d(0) + d(1) + d(2) + d(3)
}

/// L1 distance between the region vectors of two nodes.
pub fn svec_l1(n1: &StructuralVec, n2: &StructuralVec) -> (r: u32)
    requires
        svec_bounded(*n1),
        svec_bounded(*n2),
    ensures
        r as int == l1_dist(*n1, *n2),
{
    let mut sum: u32 = 0;
    let mut r: usize = 0;
    while r < 4
        invariant
            r <= 4,
            svec_bounded(*n1),
            svec_bounded(*n2),
            sum as int == ({
                let d = |x: int| if n1.mapping_regions@[x] >= n2.mapping_regions@[x] {
                    n1.mapping_regions@[x] - n2.mapping_regions@[x]
                } else {
                    n2.mapping_regions@[x] - n1.mapping_regions@[x]
                };
                if r == 0 { 0 } else if r == 1 { d(0) } else if r == 2 { d(0) + d(1) } else if r == 3 { d(0) + d(1) + d(2) } else { d(0) + d(1) + d(2) + d(3) }
            }),
            sum <= r * MAX_SEQ_LEN,
        decreases 4 - r,
    {
        let a = n1.mapping_regions[r];
        let b = n2.mapping_regions[r];
        proof {
            assert(0 <= n1.mapping_regions@[r as int] <= MAX_SEQ_LEN);
            assert(0 <= n2.mapping_regions@[r as int] <= MAX_SEQ_LEN);
        }
        let d: u32 = if a >= b { (a - b) as u32 } else { (b - a) as u32 };
        sum = sum + d;
        r = r + 1;
    }
    sum
}

/// Whether the scan of `v` from position `j` finds a partner of `n1`: with
/// `kw` the postorder id of `n1` minus `k` (at least 0), vectors with a
/// postorder id below `kw` are skipped while `kw < |v|`, the scan stops at
/// the first vector whose postorder id exceeds that of `n1` by more than
/// `k`, and a vector within L1 distance `k` is a partner.
pub open spec fn window_scan(n1: StructuralVec, v: Seq<StructuralVec>, k: int, j: int) -> bool
    decreases v.len() - j,
{
    if j < 0 || j >= v.len() {
        false
    } else {
        let kw = if n1.postorder_id >= k { n1.postorder_id - k } else { 0 };
        if kw < v.len() && v[j].postorder_id < kw {
            window_scan(n1, v, k, j + 1)
        } else if v[j].postorder_id > k + n1.postorder_id {
            false
        } else if l1_dist(n1, v[j]) <= k {
            true
        } else {
            window_scan(n1, v, k, j + 1)
        }
    }
}

/// Number of the first `i` vectors of `a` that have a partner in `b`.
pub open spec fn hits(a: Seq<StructuralVec>, b: Seq<StructuralVec>, k: int, i: int) -> int
    decreases i,
{
    if i <= 0 {
        0
    } else {
        hits(a, b, k, i - 1) + (if window_scan(a[i - 1], b, k, 0) { 1int } else { 0 })
    }
}

/// Number of nodes of label set `e1` matched in label set `e2` (of the same
/// label): two single nodes match when within distance `k`; otherwise the
/// nodes of the lighter set are matched against the heavier one.
pub open spec fn set_overlap(e1: LabelSetElement, e2: LabelSetElement, k: int) -> int {
    let v1 = e1.struct_vec@;
    let v2 = e2.struct_vec@;
    if e1.base.weight == 1 && e2.base.weight == 1 {
        if l1_dist(v1[0], v2[0]) <= k { 1 } else { 0 }
    } else if e2.base.weight < e1.base.weight {
        hits(v2, v1, k, v2.len() as int)
    } else {
        hits(v1, v2, k, v1.len() as int)
    }
}

/// Position of the set with label `l`, or -1.
pub open spec fn set_index(sets: Seq<LabelSetElement>, l: Seq<char>) -> int {
    if has_set(sets, l) {
        choose|a: int| 0 <= a < sets.len() && (#[trigger] sets[a]).base.id@ == l
    } else {
        -1
    }
}

/// Number of nodes matched over the first `m` label sets of `s1`.
pub open spec fn overlap(s1: Seq<LabelSetElement>, s2: Seq<LabelSetElement>, k: int, m: int) -> int
    decreases m,
{
    if m <= 0 {
        0
    } else {
        let b = set_index(s2, s1[m - 1].base.id@);
        overlap(s1, s2, k, m - 1) + (if b < 0 { 0 } else { set_overlap(s1[m - 1], s2[b], k) })
    }
}

/// Whether `n2` lies in the postorder window of `n1` in a list of `len`
/// vectors: its postorder id is at most `k` above that of `n1`, and at least
/// `k` below it unless that lower end is past the list's length.
pub open spec fn in_window(n1: StructuralVec, n2: StructuralVec, k: int, len: int) -> bool {
    let kw = if n1.postorder_id >= k { n1.postorder_id - k } else { 0 };
    &&& (kw >= len || n2.postorder_id >= kw)
    &&& n2.postorder_id <= k + n1.postorder_id
}

/// Some vector of `v` in the window of `n1` is within L1 distance `k` of it.
pub open spec fn has_partner(n1: StructuralVec, v: Seq<StructuralVec>, k: int) -> bool {
    exists|j: int| 0 <= j < v.len() && in_window(n1, #[trigger] v[j], k, v.len() as int) && l1_dist(n1, v[j]) <= k
}

/// The vectors are in increasing postorder.
pub open spec fn sorted_ids(v: Seq<StructuralVec>) -> bool {
    forall|i: int, j: int| 0 <= i < j < v.len() ==> (#[trigger] v[i]).postorder_id < (#[trigger] v[j]).postorder_id
}

/// Every label set lists its nodes in increasing postorder, as sets built
/// from a tree do.
pub open spec fn sets_sorted(sets: Seq<LabelSetElement>) -> bool {
    forall|a: int| 0 <= a < sets.len() ==> sorted_ids(#[trigger] sets[a].struct_vec@)
}

/// The label sets of a tuple built from a tree list their nodes in postorder.
#[verifier::spinoff_prover]
pub proof fn lemma_indexed_sets_sorted(s: StructuralFilterTuple, t: TreeArena)
    requires
        s.indexes(t),
    ensures
        sets_sorted(s.1@),
{
    assert forall|a: int| 0 <= a < s.1@.len() implies sorted_ids(#[trigger] s.1@[a].struct_vec@) by {
        let v = s.1@[a].struct_vec@;
        assert(element_of(s.1@[a], t));
        assert forall|i: int, j: int| 0 <= i < j < v.len() implies (#[trigger] v[i]).postorder_id < (
        #[trigger] v[j]).postorder_id by {}
    }
}

/// Number of the first `i` vectors of `a` with a partner in `b`.
pub open spec fn partner_count(a: Seq<StructuralVec>, b: Seq<StructuralVec>, k: int, i: int) -> int
    decreases i,
{
    if i <= 0 {
        0
    } else {
        partner_count(a, b, k, i - 1) + (if has_partner(a[i - 1], b, k) { 1int } else { 0 })
    }
}

/// Nodes of label set `e1` matched in the set `e2` of the same label: the
/// two single nodes when within distance `k`, else the nodes of the lighter
/// set that have a partner in the heavier one.
pub open spec fn set_matched(e1: LabelSetElement, e2: LabelSetElement, k: int) -> int {
    let v1 = e1.struct_vec@;
    let v2 = e2.struct_vec@;
    if e1.base.weight == 1 && e2.base.weight == 1 {
        if l1_dist(v1[0], v2[0]) <= k { 1 } else { 0 }
    } else if e2.base.weight < e1.base.weight {
        partner_count(v2, v1, k, v2.len() as int)
    } else {
        partner_count(v1, v2, k, v1.len() as int)
    }
}

/// Nodes matched over the first `m` label sets of `s1`, each against the set
/// of the same label in `s2`.
pub open spec fn matched(s1: Seq<LabelSetElement>, s2: Seq<LabelSetElement>, k: int, m: int) -> int
    decreases m,
{
    if m <= 0 {
        0
    } else {
        let b = set_index(s2, s1[m - 1].base.id@);
        matched(s1, s2, k, m - 1) + (if b < 0 { 0 } else { set_matched(s1[m - 1], s2[b], k) })
    }
}

/// On a list in postorder, the scan finds a partner exactly when one exists
/// past its start.
proof fn lemma_window_scan(n1: StructuralVec, v: Seq<StructuralVec>, k: int, j: int)
    requires
        sorted_ids(v),
        0 <= j <= v.len(),
    ensures
        window_scan(n1, v, k, j) <==> exists|x: int|
            j <= x < v.len() && in_window(n1, #[trigger] v[x], k, v.len() as int) && l1_dist(n1, v[x]) <= k,
    decreases v.len() - j,
{
    if j < v.len() {
        lemma_window_scan(n1, v, k, j + 1);
        let kw = if n1.postorder_id >= k { n1.postorder_id - k } else { 0 };
        if !(kw < v.len() && v[j].postorder_id < kw) && v[j].postorder_id > k + n1.postorder_id {
            assert forall|x: int| j <= x < v.len() implies !in_window(n1, #[trigger] v[x], k, v.len() as int) by {
                if x > j {
                    assert(v[j].postorder_id < v[x].postorder_id);
                }
            }
        }
    }
}

proof fn lemma_hits_partner_count(a: Seq<StructuralVec>, b: Seq<StructuralVec>, k: int, i: int)
    requires
        sorted_ids(b),
    ensures
        hits(a, b, k, i) == partner_count(a, b, k, i),
    decreases i,
{
    if i > 0 {
        lemma_hits_partner_count(a, b, k, i - 1);
        lemma_window_scan(a[i - 1], b, k, 0);
    }
}

proof fn lemma_overlap_matched(s1: Seq<LabelSetElement>, s2: Seq<LabelSetElement>, k: int, m: int)
    requires
        sets_sorted(s1),
        sets_sorted(s2),
        m <= s1.len(),
    ensures
        overlap(s1, s2, k, m) == matched(s1, s2, k, m),
    decreases m,
{
    if m > 0 {
        lemma_overlap_matched(s1, s2, k, m - 1);
        let b = set_index(s2, s1[m - 1].base.id@);
        if b >= 0 {
            let e1 = s1[m - 1];
            let e2 = s2[b];
            assert(sorted_ids(e1.struct_vec@));
            assert(sorted_ids(e2.struct_vec@));
            lemma_hits_partner_count(e2.struct_vec@, e1.struct_vec@, k, e2.struct_vec@.len() as int);
            lemma_hits_partner_count(e1.struct_vec@, e2.struct_vec@, k, e1.struct_vec@.len() as int);
        }
    }
}

/// Number of the first `i` vectors of `a` that lie within L1 distance `k`
/// of some vector of `b`.
pub open spec fn close_count(a: Seq<StructuralVec>, b: Seq<StructuralVec>, k: int, i: int) -> int
    decreases i,
{
    if i <= 0 {
        0
    } else {
        close_count(a, b, k, i - 1) + (if exists|j: int| 0 <= j < b.len() && l1_dist(a[i - 1], #[trigger] b[j]) <= k {
            1int
        } else {
            0
        })
    }
}

/// For each of the first `m` label sets of `s1` whose label `s2` also has,
/// the larger of the two numbers of its nodes, one per side, that lie within
/// L1 distance `k` of a node of the same label on the other side; summed.
pub open spec fn close_bound(s1: Seq<LabelSetElement>, s2: Seq<LabelSetElement>, k: int, m: int) -> int
    decreases m,
{
    if m <= 0 {
        0
    } else {
        let b = set_index(s2, s1[m - 1].base.id@);
        close_bound(s1, s2, k, m - 1) + (if b < 0 {
            0
        } else {
            let v1 = s1[m - 1].struct_vec@;
            let v2 = s2[b].struct_vec@;
            let c1 = close_count(v1, v2, k, v1.len() as int);
            let c2 = close_count(v2, v1, k, v2.len() as int);
            if c1 >= c2 { c1 } else { c2 }
        })
    }
}

proof fn lemma_window_scan_close(n1: StructuralVec, v: Seq<StructuralVec>, k: int, j: int)
    requires
        window_scan(n1, v, k, j),
    ensures
        exists|x: int| 0 <= x < v.len() && l1_dist(n1, #[trigger] v[x]) <= k,
    decreases v.len() - j,
{
    let kw = if n1.postorder_id >= k { n1.postorder_id - k } else { 0 };
    if kw < v.len() && v[j].postorder_id < kw {
        lemma_window_scan_close(n1, v, k, j + 1);
    } else if l1_dist(n1, v[j]) <= k {
        assert(0 <= j < v.len() && l1_dist(n1, v[j]) <= k);
    } else {
        lemma_window_scan_close(n1, v, k, j + 1);
    }
}

proof fn lemma_hits_close(a: Seq<StructuralVec>, b: Seq<StructuralVec>, k: int, i: int)
    ensures
        hits(a, b, k, i) <= close_count(a, b, k, i),
    decreases i,
{
    if i > 0 {
        lemma_hits_close(a, b, k, i - 1);
        if window_scan(a[i - 1], b, k, 0) {
            lemma_window_scan_close(a[i - 1], b, k, 0);
        }
    }
}

/// A single node is within distance `k` of the single node of another list
/// exactly when their L1 distance is at most `k`.
proof fn lemma_close_single(v1: Seq<StructuralVec>, v2: Seq<StructuralVec>, k: int)
    requires
        v1.len() == 1,
        v2.len() == 1,
    ensures
        close_count(v1, v2, k, 1) == (if l1_dist(v1[0], v2[0]) <= k { 1int } else { 0 }),
        close_count(v2, v1, k, 1) == close_count(v1, v2, k, 1),
{
    assert(close_count(v1, v2, k, 0) == 0);
    assert(close_count(v2, v1, k, 0) == 0);
    if l1_dist(v1[0], v2[0]) <= k {
        assert(l1_dist(v1[0], v2[0]) <= k);
        assert(l1_dist(v2[0], v1[0]) <= k);
    }
}

proof fn lemma_set_overlap_close(e1: LabelSetElement, e2: LabelSetElement, k: int)
    requires
        e1.base.weight == e1.struct_vec@.len(),
        e2.base.weight == e2.struct_vec@.len(),
        e1.struct_vec@.len() >= 1,
        e2.struct_vec@.len() >= 1,
    ensures
        set_overlap(e1, e2, k) <= close_count(e1.struct_vec@, e2.struct_vec@, k, e1.struct_vec@.len() as int)
            || set_overlap(e1, e2, k) <= close_count(e2.struct_vec@, e1.struct_vec@, k, e2.struct_vec@.len() as int),
        e1.base.weight == 1 && e2.base.weight == 1 ==> set_overlap(e1, e2, k) == close_count(
            e1.struct_vec@,
            e2.struct_vec@,
            k,
            1,
        ) && set_overlap(e1, e2, k) == close_count(e2.struct_vec@, e1.struct_vec@, k, 1),
{
    let v1 = e1.struct_vec@;
    let v2 = e2.struct_vec@;
    if e1.base.weight == 1 && e2.base.weight == 1 {
        lemma_close_single(v1, v2, k);
    } else if e2.base.weight < e1.base.weight {
        lemma_hits_close(v2, v1, k, v2.len() as int);
    } else {
        lemma_hits_close(v1, v2, k, v1.len() as int);
    }
}

/// Every node that the structural filter counts as matched has a node of the
/// same label in the other tree within L1 region distance `k`: over any
/// prefix of the label sets of `s1`, the overlap is at most the sum, per
/// shared label, of the larger number of such nodes on either side.
pub proof fn overlap_within_close_bound(s1: StructuralFilterTuple, s2: StructuralFilterTuple, k: int, m: int)
    requires
        s1.wf(),
        s2.wf(),
        0 <= m <= s1.1@.len(),
    ensures
        overlap(s1.1@, s2.1@, k, m) <= close_bound(s1.1@, s2.1@, k, m),
    decreases m,
{
    if m > 0 {
        overlap_within_close_bound(s1, s2, k, m - 1);
        let l1 = s1.1@;
        let l2 = s2.1@;
        let e1 = l1[m - 1];
        let b = set_index(l2, e1.base.id@);
        if b >= 0 {
            assert(0 <= b < l2.len()) by {
                let c = choose|c: int| 0 <= c < l2.len() && (#[trigger] l2[c]).base.id@ == e1.base.id@;
            }
            let e2 = l2[b];
            lemma_set_overlap_close(e1, e2, k);
        }
    }
}

/// When every label occurs once in each tree, the structural filter counts a
/// label as matched exactly when its two nodes are within L1 region distance
/// `k`: the overlap equals the number of shared labels whose single nodes
/// are that close.
pub proof fn overlap_of_single_nodes(s1: StructuralFilterTuple, s2: StructuralFilterTuple, k: int, m: int)
    requires
        s1.wf(),
        s2.wf(),
        0 <= m <= s1.1@.len(),
        forall|a: int| 0 <= a < s1.1@.len() ==> (#[trigger] s1.1@[a]).base.weight == 1,
        forall|a: int| 0 <= a < s2.1@.len() ==> (#[trigger] s2.1@[a]).base.weight == 1,
    ensures
        overlap(s1.1@, s2.1@, k, m) == close_bound(s1.1@, s2.1@, k, m),
    decreases m,
{
    if m > 0 {
        overlap_of_single_nodes(s1, s2, k, m - 1);
        let l1 = s1.1@;
        let l2 = s2.1@;
        let e1 = l1[m - 1];
        let b = set_index(l2, e1.base.id@);
        if b >= 0 {
            assert(0 <= b < l2.len()) by {
                let c = choose|c: int| 0 <= c < l2.len() && (#[trigger] l2[c]).base.id@ == e1.base.id@;
            }
            let e2 = l2[b];
            assert(e1.base.weight == 1);
            assert(e2.base.weight == 1);
            lemma_set_overlap_close(e1, e2, k);
        }
    }
}

/// Searches `v` for a partner of `n1` as `window_scan` describes.
fn scan_window(n1: &StructuralVec, v: &Vec<StructuralVec>, k: usize) -> (r: bool)
    requires
        k < i32::MAX,
        svec_bounded(*n1),
        forall|j: int| 0 <= j < v@.len() ==> svec_bounded(#[trigger] v@[j]),
    ensures
        r == window_scan(*n1, v@, k as int, 0),
{
    let kw = if n1.postorder_id >= k { n1.postorder_id - k } else { 0 };
    let len = v.len();
    let mut j: usize = 0;
    while j < len
        invariant
            len == v@.len(),
            j <= len,
            k < i32::MAX,
            kw == (if n1.postorder_id >= k { n1.postorder_id - k } else { 0 }),
            svec_bounded(*n1),
            forall|x: int| 0 <= x < v@.len() ==> svec_bounded(#[trigger] v@[x]),
            window_scan(*n1, v@, k as int, 0) == window_scan(*n1, v@, k as int, j as int),
        decreases len - j,
    {
        let n2 = &v[j];
        if kw < len && n2.postorder_id < kw {
            j = j + 1;
            continue;
        }
        if n2.postorder_id > k + n1.postorder_id {
            return false;
        }
        if svec_l1(n1, n2) as usize <= k {
            return true;
        }
        j = j + 1;
    }
    false
}

proof fn lemma_hits_bounds(a: Seq<StructuralVec>, b: Seq<StructuralVec>, k: int, i: int)
    requires
        0 <= i,
    ensures
        0 <= hits(a, b, k, i) <= i,
    decreases i,
{
    if i > 0 {
        lemma_hits_bounds(a, b, k, i - 1);
    }
}

/// Counts the vectors of `a` that have a partner in `b`.
fn count_hits(a: &Vec<StructuralVec>, b: &Vec<StructuralVec>, k: usize) -> (r: usize)
    requires
        k < i32::MAX,
        forall|j: int| 0 <= j < a@.len() ==> svec_bounded(#[trigger] a@[j]),
        forall|j: int| 0 <= j < b@.len() ==> svec_bounded(#[trigger] b@[j]),
    ensures
        r as int == hits(a@, b@, k as int, a@.len() as int),
{
    let mut c: usize = 0;
    let mut i: usize = 0;
    while i < a.len()
        invariant
            i <= a@.len(),
            k < i32::MAX,
            forall|j: int| 0 <= j < a@.len() ==> svec_bounded(#[trigger] a@[j]),
            forall|j: int| 0 <= j < b@.len() ==> svec_bounded(#[trigger] b@[j]),
            c as int == hits(a@, b@, k as int, i as int),
        decreases a@.len() - i,
    {
        proof {
            lemma_hits_bounds(a@, b@, k as int, i as int);
        }
        if scan_window(&a[i], b, k) {
            c = c + 1;
        }
        i = i + 1;
    }
    c
}

proof fn lemma_overlap_bounds(s1: Seq<LabelSetElement>, s2: Seq<LabelSetElement>, k: int, m: int)
    requires
        0 <= m <= s1.len(),
        forall|a: int| 0 <= a < s1.len() ==> (#[trigger] s1[a]).base.weight == s1[a].struct_vec@.len() && s1[a].struct_vec@.len() >= 1,
        forall|a: int| 0 <= a < s2.len() ==> (#[trigger] s2[a]).base.weight == s2[a].struct_vec@.len() && s2[a].struct_vec@.len() >= 1,
    ensures
        0 <= overlap(s1, s2, k, m) <= weight_sum(s1, m),
    decreases m,
{
    if m > 0 {
        lemma_overlap_bounds(s1, s2, k, m - 1);
        let e1 = s1[m - 1];
        let b = set_index(s2, e1.base.id@);
        if b >= 0 {
            let e2 = s2[b];
            assert(0 <= b < s2.len()) by {
                let c = choose|c: int| 0 <= c < s2.len() && (#[trigger] s2[c]).base.id@ == e1.base.id@;
            }
            lemma_hits_bounds(e2.struct_vec@, e1.struct_vec@, k, e2.struct_vec@.len() as int);
            lemma_hits_bounds(e1.struct_vec@, e2.struct_vec@, k, e1.struct_vec@.len() as int);
        }
    }
}

/// Number of nodes of `s1` matched in `s2` within structural distance `k`.
fn get_nodes_overlap_with_region_distance(s1: &StructuralFilterTuple, s2: &StructuralFilterTuple, k: usize) -> (r: usize)
    requires
        s1.wf(),
        s2.wf(),
        k < i32::MAX,
    ensures
        r as int == overlap(s1.1@, s2.1@, k as int, s1.1@.len() as int),
        r <= s1.0,
{
    let ghost l1 = s1.1@;
    let ghost l2 = s2.1@;
    let mut c: usize = 0;
    let mut a: usize = 0;
    while a < s1.1.len()
        invariant
            s1.wf(),
            s2.wf(),
            l1 == s1.1@,
            l2 == s2.1@,
            k < i32::MAX,
            a <= l1.len(),
            c as int == overlap(l1, l2, k as int, a as int),
        decreases l1.len() - a,
    {
        proof {
            lemma_overlap_bounds(l1, l2, k as int, a + 1);
            crate::structural::lemma_weight_sum_prefix(l1, a + 1);
        }
        let set1 = &s1.1[a];
        match find_set(&s2.1, &set1.base.id) {
            Some(b) => {
                let set2 = &s2.1[b];
                proof {
                    assert(has_set(l2, set1.base.id@));
                    let bb = set_index(l2, set1.base.id@);
                    assert(0 <= bb < l2.len() && l2[bb].base.id@ == set1.base.id@);
                    if bb != b {
                        if bb < b {
                            assert(l2[bb].base.id@ != l2[b as int].base.id@);
                        } else {
                            assert(l2[b as int].base.id@ != l2[bb].base.id@);
                        }
                    }
                }
                if set1.base.weight == 1 && set2.base.weight == 1 {
                    if svec_l1(&set1.struct_vec[0], &set2.struct_vec[0]) as usize <= k {
                        c = c + 1;
                    }
                } else if set2.base.weight < set1.base.weight {
                    c = c + count_hits(&set2.struct_vec, &set1.struct_vec, k);
                } else {
                    c = c + count_hits(&set1.struct_vec, &set2.struct_vec, k);
                }
            },
            None => {
                proof {
                    assert(!has_set(l2, set1.base.id@));
                }
            },
        }
        a = a + 1;
    }
    proof {
        lemma_overlap_bounds(l1, l2, k as int, l1.len() as int);
    }
    c
}

proof fn lemma_weight_sum_prefix(sets: Seq<LabelSetElement>, m: int)
    requires
        0 <= m <= sets.len(),
    ensures
        weight_sum(sets, m) <= weight_sum(sets, sets.len() as int),
    decreases sets.len() - m,
{
    if m < sets.len() {
        lemma_weight_sum_prefix(sets, m + 1);
    }
}

/// Structural lower bound on the tree edit distance: `k + 1` when the tree
/// sizes differ by more than `k`, else the larger size minus the number of
/// nodes matched within structural distance `k`.
pub fn ted(s1: &StructuralFilterTuple, s2: &StructuralFilterTuple, k: i32) -> (r: i32)
    requires
        s1.wf(),
        s2.wf(),
        0 <= k < i32::MAX,
    ensures
        r as int == (if s1.0 - s2.0 > k || s2.0 - s1.0 > k {
            k + 1
        } else {
            (if s1.0 >= s2.0 { s1.0 as int } else { s2.0 as int }) - overlap(s1.1@, s2.1@, k as int, s1.1@.len() as int)
        }),
        sets_sorted(s1.1@) && sets_sorted(s2.1@) && !(s1.0 - s2.0 > k || s2.0 - s1.0 > k) ==> r as int == (if s1.0
            >= s2.0 {
            s1.0 as int
        } else {
            s2.0 as int
        }) - matched(s1.1@, s2.1@, k as int, s1.1@.len() as int),
        !(s1.0 - s2.0 > k || s2.0 - s1.0 > k) ==> r as int >= (if s1.0 >= s2.0 {
            s1.0 as int
        } else {
            s2.0 as int
        }) - close_bound(s1.1@, s2.1@, k as int, s1.1@.len() as int),
        !(s1.0 - s2.0 > k || s2.0 - s1.0 > k) && (forall|a: int|
            0 <= a < s1.1@.len() ==> (#[trigger] s1.1@[a]).base.weight == 1) && (forall|a: int|
            0 <= a < s2.1@.len() ==> (#[trigger] s2.1@[a]).base.weight == 1) ==> r as int == (if s1.0 >= s2.0 {
            s1.0 as int
        } else {
            s2.0 as int
        }) - close_bound(s1.1@, s2.1@, k as int, s1.1@.len() as int),
{
    let bigger = if s1.0 >= s2.0 { s1.0 } else { s2.0 };
    let diff = if s1.0 >= s2.0 { s1.0 - s2.0 } else { s2.0 - s1.0 };
    if diff > k as usize {
        return k + 1;
    }
    proof {
        if sets_sorted(s1.1@) && sets_sorted(s2.1@) {
            lemma_overlap_matched(s1.1@, s2.1@, k as int, s1.1@.len() as int);
        }
        overlap_within_close_bound(*s1, *s2, k as int, s1.1@.len() as int);
        if (forall|a: int| 0 <= a < s1.1@.len() ==> (#[trigger] s1.1@[a]).base.weight == 1) && (forall|a: int|
            0 <= a < s2.1@.len() ==> (#[trigger] s2.1@[a]).base.weight == 1) {
            overlap_of_single_nodes(*s1, *s2, k as int, s1.1@.len() as int);
        }
    }
    let overlap = get_nodes_overlap_with_region_distance(s1, s2, k as usize);
    (bigger - overlap) as i32
}

} // verus!
