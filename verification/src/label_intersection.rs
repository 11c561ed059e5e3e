//! Label-intersection lower bounds on the tree edit distance: nodes whose
//! labels cannot be matched in the other tree must be edited.

use crate::collections::LabelSet;
use crate::edit_distance::{max_int, min_int, Symbol, MAX_SEQ_LEN};
use crate::sed::texts;
use crate::tree::TreeArena;
use vstd::prelude::*;

verus! {

/// Number of the first `m` slots of `t` whose label is `l`.
pub open spec fn label_count(t: TreeArena, l: Seq<char>, m: int) -> int
    decreases m,
{
    if m <= 0 {
        0
    } else {
        label_count(t, l, m - 1) + (if t.label(m - 1) == l { 1int } else { 0 })
    }
}

/// Number of the first `m` slots of `t2` whose label occurs in `t1`.
pub open spec fn shared_count(t1: TreeArena, t2: TreeArena, m: int) -> int
    decreases m,
{
    if m <= 0 {
        0
    } else {
        shared_count(t1, t2, m - 1) + (if t1.has_label(t2.label(m - 1)) { 1int } else { 0 })
    }
}

impl TreeArena {
    /// Some slot of the arena carries label `l`.
    pub open spec fn has_label(&self, l: Seq<char>) -> bool {
        exists|y: int| 0 <= y < self.n() && #[trigger] self.label(y) == l
    }
}

proof fn lemma_shared_count_bounds(t1: TreeArena, t2: TreeArena, m: int)
    requires
        0 <= m,
    ensures
        0 <= shared_count(t1, t2, m) <= m,
    decreases m,
{
    if m > 0 {
        lemma_shared_count_bounds(t1, t2, m - 1);
    }
}

proof fn lemma_shared_count_growth(t1: TreeArena, t2: TreeArena, m: int, e: int)
    requires
        0 <= m <= e,
    ensures
        shared_count(t1, t2, e) - shared_count(t1, t2, m) <= e - m,
    decreases e - m,
{
    if e > m {
        lemma_shared_count_growth(t1, t2, m, e - 1);
    }
}

/// Collects the labels of the first `m` slots of a tree into a set.
fn label_set_of(t: &TreeArena) -> (s: LabelSet)
    requires
        t.wf(),
    ensures
        forall|l: Seq<char>| s.entries().contains(l) <==> t.has_label(l),
{
    let n = t.count();
    let mut s = LabelSet::new();
    let mut y: usize = 0;
    while y < n
        invariant
            t.wf(),
            n == t.n(),
            y <= n,
            forall|l: Seq<char>| s.entries().contains(l) <==> exists|x: int| 0 <= x < y && #[trigger] t.label(x) == l,
        decreases n - y,
    {
        proof {
            assert(t.node_ok(y as int));
        }
        let lbl = t.node(y).get().clone();
        let ghost before = s.entries();
        s.insert(lbl);
        proof {
            assert forall|l: Seq<char>| s.entries().contains(l) <==> exists|x: int| 0 <= x < y + 1 && #[trigger] t.label(x) == l by {
                if l == t.label(y as int) {
                    assert(0 <= y < y + 1 && t.label(y as int) == l);
                }
                if exists|x: int| 0 <= x < y + 1 && #[trigger] t.label(x) == l {
                    let x = choose|x: int| 0 <= x < y + 1 && #[trigger] t.label(x) == l;
                    if x < y {
                        assert(before.contains(l));
                    }
                }
            }
        }
        y = y + 1;
    }
    s
}

/// Counts the slots of `t2` whose label occurs in the set of labels of `t1`.
fn count_shared(set: &LabelSet, t1: &TreeArena, t2: &TreeArena) -> (c: usize)
    requires
        t2.wf(),
        forall|l: Seq<char>| set.entries().contains(l) <==> t1.has_label(l),
    ensures
        c as int == shared_count(*t1, *t2, t2.n()),
{
    let n2 = t2.count();
    let mut c: usize = 0;
    let mut y: usize = 0;
    while y < n2
        invariant
            t2.wf(),
            n2 == t2.n(),
            y <= n2,
            c as int == shared_count(*t1, *t2, y as int),
            forall|l: Seq<char>| set.entries().contains(l) <==> t1.has_label(l),
        decreases n2 - y,
    {
        proof {
            assert(t2.node_ok(y as int));
            lemma_shared_count_bounds(*t1, *t2, y as int);
        }
        if set.contains(t2.node(y).get().as_str()) {
            c = c + 1;
        }
        y = y + 1;
    }
    c
}

/// Label-intersection distance: the larger tree size minus the number of
/// nodes of `t2` whose label occurs in `t1`.
pub fn label_intersection_distance(t1: &TreeArena, t2: &TreeArena) -> (r: usize)
    requires
        t1.wf(),
        t2.wf(),
    ensures
        r as int == max_int(t1.n(), t2.n()) - shared_count(*t1, *t2, t2.n()),
{
    let set = label_set_of(t1);
    let inter = count_shared(&set, t1, t2);
    proof {
        lemma_shared_count_bounds(*t1, *t2, t2.n());
    }
    let bigger = if t1.count() >= t2.count() { t1.count() } else { t2.count() };
    bigger - inter
}

/// Bounded label-intersection distance: the label-intersection distance when
/// it is at most `max_distance`, else `max_distance + 1`, the over-bound
/// signal, given at once when the sizes alone differ by more than
/// `max_distance`.
pub fn bounded_label_intersection_distance(t1: &TreeArena, t2: &TreeArena, max_distance: usize) -> (r: usize)
    requires
        t1.wf(),
        t2.wf(),
        max_distance < usize::MAX,
    ensures
        t1.n() - t2.n() > max_distance || t2.n() - t1.n() > max_distance ==> r == max_distance + 1,
        !(t1.n() - t2.n() > max_distance || t2.n() - t1.n() > max_distance) ==> {
            let lb = max_int(t1.n(), t2.n()) - shared_count(*t1, *t2, t2.n());
            r as int == (if lb > max_distance { max_distance + 1 } else { lb })
        },
{
    let n1 = t1.count();
    let n2 = t2.count();
    let diff = if n1 > n2 { n1 - n2 } else { n2 - n1 };
    if diff > max_distance {
        return max_distance + 1;
    }
    let bigger = if n1 >= n2 { n1 } else { n2 };
    let set = label_set_of(t1);
    let mut intersection_size: usize = 0;
    let mut t2_cnt = n2;
    let mut y: usize = 0;
    while y < n2
        invariant
            t2.wf(),
            n2 == t2.n(),
            n1 == t1.n(),
            bigger == max_int(n1 as int, n2 as int),
            y <= n2,
            t2_cnt == n2 - y,
            intersection_size as int == shared_count(*t1, *t2, y as int),
            bigger - intersection_size - t2_cnt <= max_distance,
            !(n1 - n2 > max_distance || n2 - n1 > max_distance),
            intersection_size <= y,
            forall|l: Seq<char>| set.entries().contains(l) <==> t1.has_label(l),
        decreases n2 - y,
    {
        proof {
            assert(t2.node_ok(y as int));
            lemma_shared_count_bounds(*t1, *t2, y as int);
        }
        t2_cnt = t2_cnt - 1;
        if set.contains(t2.node(y).get().as_str()) {
            intersection_size = intersection_size + 1;
        }
        y = y + 1;
        proof {
            lemma_shared_count_bounds(*t1, *t2, y as int);
        }
        if bigger - intersection_size - t2_cnt > max_distance {
            proof {
                lemma_shared_count_growth(*t1, *t2, y as int, n2 as int);
            }
            return max_distance + 1;
        }
    }
    bigger - intersection_size
}

/// Labels of a tree with the number of nodes carrying each; a label occurs
/// in at most one entry.
pub struct InvertedTree {
    pub tree_size: usize,
    pub inverted_list: Vec<(String, i32)>,
}

/// Sum of the counts of the first `m` entries.
pub open spec fn count_sum(list: Seq<(String, i32)>, m: int) -> int
    decreases m,
{
    if m <= 0 {
        0
    } else {
        count_sum(list, m - 1) + list[m - 1].1
    }
}

/// Position of the entry for label `l`, or -1.
pub open spec fn entry_of(list: Seq<(String, i32)>, l: Seq<char>) -> int {
    if exists|e: int| 0 <= e < list.len() && (#[trigger] list[e]).0@ == l {
        choose|e: int| 0 <= e < list.len() && (#[trigger] list[e]).0@ == l
    } else {
        -1
    }
}

/// Number of nodes with label `l` in an inverted list.
pub open spec fn count_of(list: Seq<(String, i32)>, l: Seq<char>) -> int {
    let e = entry_of(list, l);
    if e < 0 {
        0
    } else {
        list[e].1 as int
    }
}

/// Sum over the first `m` entries of `l1` of the smaller of the two counts of
/// the entry's label.
pub open spec fn common_count(l1: Seq<(String, i32)>, l2: Seq<(String, i32)>, m: int) -> int
    decreases m,
{
    if m <= 0 {
        0
    } else {
        common_count(l1, l2, m - 1) + min_int(l1[m - 1].1 as int, count_of(l2, l1[m - 1].0@))
    }
}

impl InvertedTree {
    /// Labels are distinct, counts are positive and add up to the tree size.
    pub open spec fn wf(&self) -> bool {
        let list = self.inverted_list@;
        &&& self.tree_size <= MAX_SEQ_LEN
        &&& forall|e: int| 0 <= e < list.len() ==> (#[trigger] list[e]).1 >= 1
        &&& forall|e: int, f: int|
            0 <= e < f < list.len() ==> (#[trigger] list[e]).0@ != (#[trigger] list[f]).0@
        &&& count_sum(list, list.len() as int) == self.tree_size
    }

    /// The list holds exactly the labels of `t`, each with its node count.
    pub open spec fn indexes(&self, t: TreeArena) -> bool {
        &&& self.tree_size == t.n()
        &&& forall|l: Seq<char>| #[trigger] count_of(self.inverted_list@, l) == label_count(t, l, t.n())
        &&& forall|e: int| 0 <= e < self.inverted_list@.len() ==> t.has_label((#[trigger] self.inverted_list@[e]).0@)
    }
}

/// The count of the entry holding `l`, in a list whose labels are distinct.
pub proof fn lemma_count_of_entry(list: Seq<(String, i32)>, e: int, l: Seq<char>)
    requires
        0 <= e < list.len(),
        list[e].0@ == l,
        forall|a: int, b: int| 0 <= a < b < list.len() ==> (#[trigger] list[a]).0@ != (#[trigger] list[b]).0@,
    ensures
        entry_of(list, l) == e,
        count_of(list, l) == list[e].1,
{
    let f = choose|f: int| 0 <= f < list.len() && (#[trigger] list[f]).0@ == l;
    assert(0 <= f < list.len() && list[f].0@ == l);
    if f < e {
        assert(list[f].0@ != list[e].0@);
    } else if f > e {
        assert(list[e].0@ != list[f].0@);
    }
}

/// A label held by no entry has count 0.
pub proof fn lemma_count_of_absent(list: Seq<(String, i32)>, l: Seq<char>)
    requires
        forall|e: int| 0 <= e < list.len() ==> (#[trigger] list[e]).0@ != l,
    ensures
        entry_of(list, l) == -1,
        count_of(list, l) == 0,
{
}

proof fn lemma_count_sum_push(list: Seq<(String, i32)>, p: (String, i32), m: int)
    requires
        0 <= m <= list.len(),
    ensures
        count_sum(list.push(p), m) == count_sum(list, m),
    decreases m,
{
    if m > 0 {
        lemma_count_sum_push(list, p, m - 1);
    }
}

proof fn lemma_count_sum_update(list: Seq<(String, i32)>, e: int, p: (String, i32), m: int)
    requires
        0 <= e < list.len(),
        0 <= m <= list.len(),
    ensures
        count_sum(list.update(e, p), m) == count_sum(list, m) + (if e < m { p.1 - list[e].1 } else { 0 }),
    decreases m,
{
    if m > 0 {
        lemma_count_sum_update(list, e, p, m - 1);
    }
}

/// Finds the entry of a label, if any.
pub(crate) fn find_entry(list: &Vec<(String, i32)>, label: &String) -> (r: Option<usize>)
    ensures
        r matches Some(e) ==> e < list@.len() && list@[e as int].0@ == label@,
        r is None ==> forall|e: int| 0 <= e < list@.len() ==> (#[trigger] list@[e]).0@ != label@,
{
    let mut e: usize = 0;
    while e < list.len()
        invariant
            e <= list@.len(),
            forall|f: int| 0 <= f < e ==> (#[trigger] list@[f]).0@ != label@,
        decreases list@.len() - e,
    {
        if list[e].0.is_same(label) {
            return Some(e);
        }
        e = e + 1;
    }
    None
}

impl InvertedTree {
    /// Builds the inverted list of a tree: each label with its node count.
    pub fn from_tree(tree: &TreeArena) -> (r: InvertedTree)
        requires
            tree.is_tree(),
        ensures
            r.wf(),
            r.indexes(*tree),
    {
        let n = tree.count();
        let mut list: Vec<(String, i32)> = Vec::new();
        let mut y: usize = 0;
        while y < n
            invariant
                tree.is_tree(),
                n == tree.n(),
                y <= n,
                forall|e: int| 0 <= e < list@.len() ==> (#[trigger] list@[e]).1 >= 1,
                forall|a: int, b: int| 0 <= a < b < list@.len() ==> (#[trigger] list@[a]).0@ != (#[trigger] list@[b]).0@,
                count_sum(list@, list@.len() as int) == y,
                forall|l: Seq<char>| #[trigger] count_of(list@, l) == label_count(*tree, l, y as int),
                forall|e: int| 0 <= e < list@.len() ==> exists|x: int| 0 <= x < y && #[trigger] tree.label(x) == (#[trigger] list@[e]).0@,
            decreases n - y,
        {
            proof {
                assert(tree.node_ok(y as int));
            }
            let lbl = tree.node(y).get();
            let ghost old_list = list@;
            let ghost l0 = tree.label(y as int);
            match find_entry(&list, lbl) {
                Some(e) => {
                    let k = list[e].0.clone();
                    let c = list[e].1;
                    proof {
                        lemma_count_of_entry(old_list, e as int, l0);
                        crate::label_intersection::lemma_label_count_bound(*tree, l0, y as int);
                    }
                    list.set(e, (k, c + 1));
                    proof {
                        lemma_count_sum_update(old_list, e as int, list@[e as int], old_list.len() as int);
                        assert forall|l: Seq<char>| #[trigger] count_of(list@, l) == label_count(*tree, l, y + 1) by {
                            if l == l0 {
                                lemma_count_of_entry(list@, e as int, l);
                            } else if exists|f: int| 0 <= f < list@.len() && (#[trigger] list@[f]).0@ == l {
                                let f = choose|f: int| 0 <= f < list@.len() && (#[trigger] list@[f]).0@ == l;
                                lemma_count_of_entry(list@, f, l);
                                lemma_count_of_entry(old_list, f, l);
                            } else {
                                lemma_count_of_absent(list@, l);
                                assert forall|f: int| 0 <= f < old_list.len() implies (#[trigger] old_list[f]).0@ != l by {
                                    assert(list@[f].0@ == old_list[f].0@);
                                }
                                lemma_count_of_absent(old_list, l);
                            }
                        }
                        assert forall|e2: int| 0 <= e2 < list@.len() implies exists|x: int| 0 <= x < y + 1 && #[trigger] tree.label(x) == (#[trigger] list@[e2]).0@ by {
                            assert(list@[e2].0@ == old_list[e2].0@);
                            let x = choose|x: int| 0 <= x < y && #[trigger] tree.label(x) == old_list[e2].0@;
                            assert(tree.label(x) == list@[e2].0@);
                        }
                    }
                },
                None => {
                    list.push((lbl.clone(), 1));
                    proof {
                        lemma_count_sum_push(old_list, list@.last(), old_list.len() as int);
                        assert(list@ == old_list.push(list@.last()));
                        assert forall|l: Seq<char>| #[trigger] count_of(list@, l) == label_count(*tree, l, y + 1) by {
                            if l == l0 {
                                lemma_count_of_absent(old_list, l);
                                lemma_count_of_entry(list@, old_list.len() as int, l);
                            } else if exists|f: int| 0 <= f < list@.len() && (#[trigger] list@[f]).0@ == l {
                                let f = choose|f: int| 0 <= f < list@.len() && (#[trigger] list@[f]).0@ == l;
                                lemma_count_of_entry(list@, f, l);
                                lemma_count_of_entry(old_list, f, l);
                            } else {
                                lemma_count_of_absent(list@, l);
                                assert forall|f: int| 0 <= f < old_list.len() implies (#[trigger] old_list[f]).0@ != l by {
                                    assert(list@[f].0@ == old_list[f].0@);
                                }
                                lemma_count_of_absent(old_list, l);
                            }
                        }
                        assert forall|e2: int| 0 <= e2 < list@.len() implies exists|x: int| 0 <= x < y + 1 && #[trigger] tree.label(x) == (#[trigger] list@[e2]).0@ by {
                            if e2 < old_list.len() {
                                assert(list@[e2].0@ == old_list[e2].0@);
                                let x = choose|x: int| 0 <= x < y && #[trigger] tree.label(x) == old_list[e2].0@;
                                assert(tree.label(x) == list@[e2].0@);
                            } else {
                                assert(tree.label(y as int) == list@[e2].0@);
                            }
                        }
                    }
                },
            }
            y = y + 1;
        }
        proof {
            assert forall|e: int| 0 <= e < list@.len() implies tree.has_label((#[trigger] list@[e]).0@) by {
                let x = choose|x: int| 0 <= x < n && #[trigger] tree.label(x) == list@[e].0@;
                assert(tree.label(x) == list@[e].0@);
            }
        }
        InvertedTree { tree_size: n, inverted_list: list }
    }
}

/// A label occurs on at most `m` of the first `m` slots.
pub proof fn lemma_label_count_bound(t: TreeArena, l: Seq<char>, m: int)
    requires
        0 <= m,
    ensures
        0 <= label_count(t, l, m) <= m,
    decreases m,
{
    if m > 0 {
        lemma_label_count_bound(t, l, m - 1);
    }
}

/// Node count of a label in an inverted list (0 when absent).
fn lookup_count(list: &Vec<(String, i32)>, label: &String) -> (r: i32)
    requires
        forall|a: int, b: int| 0 <= a < b < list@.len() ==> (#[trigger] list@[a]).0@ != (#[trigger] list@[b]).0@,
    ensures
        r as int == count_of(list@, label@),
{
    match find_entry(list, label) {
        Some(e) => {
            proof {
                lemma_count_of_entry(list@, e as int, label@);
            }
            list[e].1
        },
        None => {
            proof {
                lemma_count_of_absent(list@, label@);
            }
            0
        },
    }
}

proof fn lemma_count_of_nonneg(list: Seq<(String, i32)>, l: Seq<char>)
    requires
        forall|e: int| 0 <= e < list.len() ==> (#[trigger] list[e]).1 >= 1,
    ensures
        count_of(list, l) >= 0,
{
    let e = entry_of(list, l);
    if e >= 0 {
        assert(list[e].1 >= 1);
    }
}

proof fn lemma_common_count_bounds(l1: Seq<(String, i32)>, l2: Seq<(String, i32)>, m: int)
    requires
        0 <= m <= l1.len(),
        forall|e: int| 0 <= e < l1.len() ==> (#[trigger] l1[e]).1 >= 1,
        forall|e: int| 0 <= e < l2.len() ==> (#[trigger] l2[e]).1 >= 1,
    ensures
        0 <= common_count(l1, l2, m) <= count_sum(l1, m),
        count_sum(l1, m) <= count_sum(l1, l1.len() as int),
    decreases l1.len() - m,
{
    lemma_common_prefix_bounds(l1, l2, m);
    if m < l1.len() {
        lemma_common_count_bounds(l1, l2, m + 1);
        assert(l1[m].1 >= 1);
    }
}

proof fn lemma_common_prefix_bounds(l1: Seq<(String, i32)>, l2: Seq<(String, i32)>, m: int)
    requires
        0 <= m <= l1.len(),
        forall|e: int| 0 <= e < l1.len() ==> (#[trigger] l1[e]).1 >= 1,
        forall|e: int| 0 <= e < l2.len() ==> (#[trigger] l2[e]).1 >= 1,
    ensures
        0 <= common_count(l1, l2, m) <= count_sum(l1, m),
    decreases m,
{
    if m > 0 {
        lemma_common_prefix_bounds(l1, l2, m - 1);
        assert(l1[m - 1].1 >= 1);
        lemma_count_of_nonneg(l2, l1[m - 1].0@);
    }
}

/// Label-intersection distance of two inverted lists: the larger tree size
/// minus the number of nodes that can be paired by label.
pub fn label_intersection_inverted_distance(t1: &InvertedTree, t2: &InvertedTree) -> (r: i32)
    requires
        t1.wf(),
        t2.wf(),
    ensures
        r as int == max_int(t1.tree_size as int, t2.tree_size as int) - common_count(
            t1.inverted_list@,
            t2.inverted_list@,
            t1.inverted_list@.len() as int,
        ),
{
    let ghost l1 = t1.inverted_list@;
    let ghost l2 = t2.inverted_list@;
    let len = t1.inverted_list.len();
    let mut intersection_size: i32 = 0;
    let mut e: usize = 0;
    while e < len
        invariant
            t1.wf(),
            t2.wf(),
            l1 == t1.inverted_list@,
            l2 == t2.inverted_list@,
            len == l1.len(),
            e <= len,
            intersection_size as int == common_count(l1, l2, e as int),
        decreases len - e,
    {
        proof {
            lemma_common_prefix_bounds(l1, l2, e + 1);
            lemma_common_count_bounds(l1, l2, e + 1);
        }
        let c1 = t1.inverted_list[e].1;
        let c2 = lookup_count(&t2.inverted_list, &t1.inverted_list[e].0);
        intersection_size = intersection_size + if c2 < c1 { c2 } else { c1 };
        e = e + 1;
    }
    proof {
        lemma_common_prefix_bounds(l1, l2, len as int);
    }
    let bigger = if t1.tree_size >= t2.tree_size { t1.tree_size } else { t2.tree_size };
    bigger as i32 - intersection_size
}

/// Whether the `m`-th entry of `l1` (1-based) makes the bounded scan stop:
/// its label occurs in `l2` and, counted, the distance drops below the bound.
pub open spec fn stops_at(l1: Seq<(String, i32)>, l2: Seq<(String, i32)>, bigger: int, bound: int, m: int) -> bool {
    count_of(l2, l1[m - 1].0@) > 0 && bigger - common_count(l1, l2, m) < bound
}

/// Bounded label-intersection distance of two inverted lists: `max_distance +
/// 1` when the sizes differ by more than `max_distance`; otherwise the entries
/// of `t1` are counted in order and the scan stops at the first entry whose
/// label occurs in `t2` and brings the distance below `max_distance`,
/// returning the distance reached.
pub fn bounded_label_intersection_inverted_distance(t1: &InvertedTree, t2: &InvertedTree, max_distance: usize) -> (r: i32)
    requires
        t1.wf(),
        t2.wf(),
        max_distance < i32::MAX,
    ensures
        ({
            let l1 = t1.inverted_list@;
            let l2 = t2.inverted_list@;
            let bigger = max_int(t1.tree_size as int, t2.tree_size as int);
            let len = l1.len() as int;
            if t1.tree_size - t2.tree_size > max_distance || t2.tree_size - t1.tree_size > max_distance {
                r == max_distance + 1
            } else {
                ||| exists|m: int|
                    1 <= m <= len && #[trigger] stops_at(l1, l2, bigger, max_distance as int, m) && (forall|j: int|
                        1 <= j < m ==> !#[trigger] stops_at(l1, l2, bigger, max_distance as int, j)) && r == bigger
                        - common_count(l1, l2, m)
                ||| (forall|j: int| 1 <= j <= len ==> !#[trigger] stops_at(l1, l2, bigger, max_distance as int, j))
                    && r == bigger - common_count(l1, l2, len)
            }
        }),
{
    let ghost l1 = t1.inverted_list@;
    let ghost l2 = t2.inverted_list@;
    let bigger = if t1.tree_size >= t2.tree_size { t1.tree_size } else { t2.tree_size };
    let diff = if t1.tree_size > t2.tree_size { t1.tree_size - t2.tree_size } else { t2.tree_size - t1.tree_size };
    if diff > max_distance {
        return max_distance as i32 + 1;
    }
    let bigger_i = bigger as i32;
    let bound = max_distance as i32;
    let len = t1.inverted_list.len();
    let mut intersection_size: i32 = 0;
    let mut e: usize = 0;
    while e < len
        invariant
            t1.wf(),
            t2.wf(),
            l1 == t1.inverted_list@,
            l2 == t2.inverted_list@,
            len == l1.len(),
            e <= len,
            bigger_i == max_int(t1.tree_size as int, t2.tree_size as int),
            bound == max_distance,
            !(t1.tree_size - t2.tree_size > max_distance || t2.tree_size - t1.tree_size > max_distance),
            intersection_size as int == common_count(l1, l2, e as int),
            forall|j: int| 1 <= j <= e ==> !#[trigger] stops_at(l1, l2, bigger_i as int, bound as int, j),
        decreases len - e,
    {
        proof {
            lemma_common_prefix_bounds(l1, l2, e + 1);
            lemma_common_count_bounds(l1, l2, e + 1);
        }
        let c2 = lookup_count(&t2.inverted_list, &t1.inverted_list[e].0);
        if c2 == 0 {
            e = e + 1;
            proof {
                assert(!stops_at(l1, l2, bigger_i as int, bound as int, e as int));
            }
            continue;
        }
        let c1 = t1.inverted_list[e].1;
        intersection_size = intersection_size + if c2 < c1 { c2 } else { c1 };
        e = e + 1;
        if bigger_i - intersection_size < bound {
            proof {
                assert(stops_at(l1, l2, bigger_i as int, bound as int, e as int));
                let bg = max_int(t1.tree_size as int, t2.tree_size as int);
                assert(bg == bigger_i as int);
                assert(max_distance as int == bound as int);
                assert(forall|j: int| 1 <= j < e ==> !#[trigger] stops_at(l1, l2, bg, max_distance as int, j));
                assert(stops_at(l1, l2, bg, max_distance as int, e as int));
            }
            return bigger_i - intersection_size;
        }
    }
    proof {
        lemma_common_prefix_bounds(l1, l2, len as int);
        let bg = max_int(t1.tree_size as int, t2.tree_size as int);
        assert(forall|j: int| 1 <= j <= len ==> !#[trigger] stops_at(l1, l2, bg, max_distance as int, j));
    }
    bigger_i - intersection_size
}

} // verus!
