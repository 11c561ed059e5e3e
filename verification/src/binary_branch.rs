//! Binary-branch lower bound: every node becomes the triple of its label, the
//! label of its first child and the label of its next sibling; two trees are
//! compared by the multisets of their triples.  Then the pipeline that uses
//! the bound before the bounded tree edit distance.

use crate::collections::{
    branch_id_entries, branch_ids_empty, branch_ids_get, branch_ids_insert, branch_vector_empty,
    branch_vector_entries, branch_vector_get, branch_vector_insert, branch_vector_list, intern, BbTuple,
    BranchIdMap, BranchVector, LabelDict,
};
use crate::edit_distance::MAX_SEQ_LEN;
use crate::pipelines::{expand_pair, filtered_result, pipeline_result, size_gates};
use crate::topdiff::ted_k;
use crate::structural_split::post_slot;
use crate::tree::TreeArena;
use crate::unified::UnifiedTreeIndex;
use vstd::prelude::*;

verus! {

/// Sum of `f` over a sequence of ids.
pub open spec fn seq_sum(e: Seq<i32>, f: spec_fn(i32) -> int) -> int
    decreases e.len(),
{
    if e.len() == 0 {
        0
    } else {
        seq_sum(e.drop_last(), f) + f(e.last())
    }
}

/// The ids of a finite set, each once, in some order.
pub open spec fn key_seq(keys: Set<i32>) -> Seq<i32> {
    choose|e: Seq<i32>| e.no_duplicates() && e.to_set() == keys
}

/// Sum of `f` over a finite set of ids.
pub open spec fn set_sum(keys: Set<i32>, f: spec_fn(i32) -> int) -> int {
    seq_sum(key_seq(keys), f)
}

/// The count a vector holds for `id` (0 when absent).
pub open spec fn count_in(m: Map<i32, i32>, id: i32) -> int {
    if m.dom().contains(id) {
        m[id] as int
    } else {
        0
    }
}

/// Number of nodes a vector counts.
pub open spec fn total(m: Map<i32, i32>) -> int {
    set_sum(m.dom(), |k: i32| count_in(m, k))
}

/// The smaller count of `id` in two vectors.
pub open spec fn min_count(d: Map<i32, i32>, q: Map<i32, i32>, id: i32) -> int {
    if count_in(d, id) <= count_in(q, id) {
        count_in(d, id)
    } else {
        count_in(q, id)
    }
}

/// Size of the multiset intersection of two vectors.
pub open spec fn common(d: Map<i32, i32>, q: Map<i32, i32>) -> int {
    set_sum(d.dom(), |k: i32| min_count(d, q, k))
}

proof fn lemma_seq_sum_remove(e: Seq<i32>, i: int, f: spec_fn(i32) -> int)
    requires
        0 <= i < e.len(),
    ensures
        seq_sum(e, f) == seq_sum(e.remove(i), f) + f(e[i]),
    decreases e.len(),
{
    if i < e.len() - 1 {
        lemma_seq_sum_remove(e.drop_last(), i, f);
        assert(e.remove(i).drop_last() =~= e.drop_last().remove(i));
        assert(e.remove(i).last() == e.last());
    } else {
        assert(e.remove(i) =~= e.drop_last());
    }
}

/// Two duplicate-free sequences that hold the same ids where `f` is not 0
/// have the same sum.
pub proof fn lemma_seq_sum_support(e1: Seq<i32>, e2: Seq<i32>, f: spec_fn(i32) -> int)
    requires
        e1.no_duplicates(),
        e2.no_duplicates(),
        forall|x: i32| f(x) != 0 ==> (e1.contains(x) <==> e2.contains(x)),
    ensures
        seq_sum(e1, f) == seq_sum(e2, f),
    decreases e1.len() + e2.len(),
{
    if e1.len() == 0 {
        if e2.len() > 0 {
            let x = e2.last();
            assert(e2.contains(x));
            assert(!e1.contains(x));
            assert(f(x) == 0);
            assert forall|y: i32| f(y) != 0 implies (e1.contains(y) <==> e2.drop_last().contains(y)) by {
                if e2.contains(y) {
                    let j = choose|j: int| 0 <= j < e2.len() && e2[j] == y;
                    assert(j != e2.len() - 1);
                    assert(e2.drop_last()[j] == y);
                }
            }
            lemma_seq_sum_support(e1, e2.drop_last(), f);
        }
    } else {
        let x = e1.last();
        let e1p = e1.drop_last();
        assert(!e1p.contains(x)) by {
            if e1p.contains(x) {
                let j = choose|j: int| 0 <= j < e1p.len() && e1p[j] == x;
                assert(e1[j] == e1[e1.len() - 1]);
            }
        }
        if e2.contains(x) {
            let i = choose|i: int| 0 <= i < e2.len() && e2[i] == x;
            let e2p = e2.remove(i);
            lemma_seq_sum_remove(e2, i, f);
            assert(e2p.no_duplicates()) by {
                assert forall|a: int, b: int| 0 <= a < b < e2p.len() implies e2p[a] != e2p[b] by {
                    let aa = if a < i { a } else { a + 1 };
                    let bb = if b < i { b } else { b + 1 };
                    assert(e2p[a] == e2[aa] && e2p[b] == e2[bb]);
                }
            }
            assert forall|y: i32| f(y) != 0 implies (e1p.contains(y) <==> e2p.contains(y)) by {
                if e1p.contains(y) {
                    let j = choose|j: int| 0 <= j < e1p.len() && e1p[j] == y;
                    assert(e1[j] == y);
                    assert(e1.contains(y));
                    let m = choose|m: int| 0 <= m < e2.len() && e2[m] == y;
                    assert(y != x);
                    assert(m != i);
                    if m < i {
                        assert(e2p[m] == y);
                    } else {
                        assert(e2p[m - 1] == y);
                    }
                }
                if e2p.contains(y) {
                    let m = choose|m: int| 0 <= m < e2p.len() && e2p[m] == y;
                    let mm = if m < i { m } else { m + 1 };
                    assert(e2[mm] == y);
                    assert(e2.contains(y));
                    assert(y != x);
                    let j = choose|j: int| 0 <= j < e1.len() && e1[j] == y;
                    assert(j != e1.len() - 1);
                    assert(e1p[j] == y);
                }
            }
            lemma_seq_sum_support(e1p, e2p, f);
        } else {
            assert(f(x) == 0) by {
                assert(e1.contains(x)) by {
                    assert(e1[e1.len() - 1] == x);
                }
            }
            assert forall|y: i32| f(y) != 0 implies (e1p.contains(y) <==> e2.contains(y)) by {
                if e1p.contains(y) {
                    let j = choose|j: int| 0 <= j < e1p.len() && e1p[j] == y;
                    assert(e1[j] == y);
                }
                if e2.contains(y) {
                    let j = choose|j: int| 0 <= j < e1.len() && e1[j] == y;
                    assert(y != x);
                    assert(j != e1.len() - 1);
                    assert(e1p[j] == y);
                }
            }
            lemma_seq_sum_support(e1p, e2, f);
        }
    }
}

/// A set sum is the sum over any duplicate-free listing of the set.
pub proof fn lemma_set_sum_seq(e: Seq<i32>, f: spec_fn(i32) -> int)
    requires
        e.no_duplicates(),
    ensures
        set_sum(e.to_set(), f) == seq_sum(e, f),
{
    let k = key_seq(e.to_set());
    assert(e.no_duplicates() && e.to_set() == e.to_set());
    assert(k.no_duplicates() && k.to_set() == e.to_set());
    assert forall|x: i32| f(x) != 0 implies (k.contains(x) <==> e.contains(x)) by {
        assert(k.to_set().contains(x) == k.contains(x));
        assert(e.to_set().contains(x) == e.contains(x));
    }
    lemma_seq_sum_support(k, e, f);
}

/// Sums agree for functions that agree on the summed ids.
pub proof fn lemma_seq_sum_congr(e: Seq<i32>, f: spec_fn(i32) -> int, g: spec_fn(i32) -> int)
    requires
        forall|i: int| 0 <= i < e.len() ==> f(#[trigger] e[i]) == g(e[i]),
    ensures
        seq_sum(e, f) == seq_sum(e, g),
    decreases e.len(),
{
    if e.len() > 0 {
        lemma_seq_sum_congr(e.drop_last(), f, g);
        assert(f(e[e.len() - 1]) == g(e[e.len() - 1]));
    }
}

/// Sums are monotone in the summed function.
pub proof fn lemma_seq_sum_mono(e: Seq<i32>, f: spec_fn(i32) -> int, g: spec_fn(i32) -> int)
    requires
        forall|i: int| 0 <= i < e.len() ==> f(#[trigger] e[i]) <= g(e[i]),
    ensures
        seq_sum(e, f) <= seq_sum(e, g),
    decreases e.len(),
{
    if e.len() > 0 {
        lemma_seq_sum_mono(e.drop_last(), f, g);
        assert(f(e[e.len() - 1]) <= g(e[e.len() - 1]));
    }
}

/// Sums are linear: `h = f + a * g` sums to the sum of `f` plus `a` times
/// that of `g`.
pub proof fn lemma_seq_sum_lin(e: Seq<i32>, f: spec_fn(i32) -> int, g: spec_fn(i32) -> int, h: spec_fn(i32) -> int, a: int)
    requires
        forall|x: i32| #[trigger] h(x) == f(x) + a * g(x),
    ensures
        seq_sum(e, h) == seq_sum(e, f) + a * seq_sum(e, g),
    decreases e.len(),
{
    if e.len() > 0 {
        lemma_seq_sum_lin(e.drop_last(), f, g, h, a);
        let s = seq_sum(e.drop_last(), g);
        let y = g(e.last());
        assert(a * (s + y) == a * s + a * y) by (nonlinear_arith);
    }
}

/// Every finite set of ids has a duplicate-free listing.
pub proof fn lemma_key_seq(keys: Set<i32>)
    requires
        keys.finite(),
    ensures
        key_seq(keys).no_duplicates(),
        key_seq(keys).to_set() == keys,
    decreases keys.len(),
{
    if keys.len() == 0 {
        let e = Seq::<i32>::empty();
        assert(e.to_set() =~= keys);
        assert(e.no_duplicates() && e.to_set() == keys);
    } else {
        let x = keys.choose();
        let rest = keys.remove(x);
        lemma_key_seq(rest);
        let r = key_seq(rest);
        let e = r.push(x);
        assert(!r.contains(x)) by {
            assert(r.to_set().contains(x) == r.contains(x));
        }
        assert(e.no_duplicates()) by {
            assert forall|a: int, b: int| 0 <= a < b < e.len() implies e[a] != e[b] by {
                if b == r.len() {
                    assert(r.contains(r[a]));
                }
            }
        }
        assert(e.to_set() =~= keys) by {
            assert forall|k: i32| e.to_set().contains(k) <==> keys.contains(k) by {
                if e.to_set().contains(k) {
                    let j = choose|j: int| 0 <= j < e.len() && e[j] == k;
                    if j < r.len() {
                        assert(r[j] == k);
                        assert(r.to_set().contains(k));
                    }
                }
                if keys.contains(k) && k != x {
                    assert(rest.contains(k));
                    assert(r.to_set().contains(k));
                    let j = choose|j: int| 0 <= j < r.len() && r[j] == k;
                    assert(e[j] == k);
                }
                if k == x {
                    assert(e[r.len() as int] == k);
                }
            }
        }
        assert(e.no_duplicates() && e.to_set() == keys);
    }
}

/// A vector with no entry counts nothing.
proof fn lemma_total_empty(m: Map<i32, i32>)
    requires
        m.dom() == Set::<i32>::empty(),
    ensures
        total(m) == 0,
{
    lemma_key_seq(m.dom());
    let e = key_seq(m.dom());
    if e.len() > 0 {
        assert(e.to_set().contains(e[0]));
    }
}

/// Sums of a non-negative function over a sub-listing are at most the sum
/// over the whole listing.
pub proof fn lemma_seq_sum_sub(e: Seq<i32>, big: Seq<i32>, f: spec_fn(i32) -> int)
    requires
        e.no_duplicates(),
        big.no_duplicates(),
        forall|x: i32| #[trigger] f(x) >= 0,
        forall|x: i32| e.contains(x) && f(x) != 0 ==> big.contains(x),
    ensures
        seq_sum(e, f) <= seq_sum(big, f),
{
    let g = |x: i32| if e.contains(x) { f(x) } else { 0 };
    assert forall|i: int| 0 <= i < e.len() implies f(#[trigger] e[i]) == g(e[i]) by {
        assert(e.contains(e[i]));
    }
    lemma_seq_sum_congr(e, f, g);
    lemma_seq_sum_support(e, big, g);
    lemma_seq_sum_mono(big, g, f);
}

proof fn lemma_seq_sum_zero(e: Seq<i32>, f: spec_fn(i32) -> int)
    requires
        forall|i: int| 0 <= i < e.len() ==> f(#[trigger] e[i]) == 0,
    ensures
        seq_sum(e, f) == 0,
    decreases e.len(),
{
    if e.len() > 0 {
        lemma_seq_sum_zero(e.drop_last(), f);
        assert(f(e[e.len() - 1]) == 0);
    }
}

/// Adding one node of branch `id` to a vector adds one to its total.
proof fn lemma_total_bump(m: Map<i32, i32>, id: i32)
    requires
        m.dom().finite(),
        0 <= count_in(m, id) < i32::MAX,
    ensures
        total(m.insert(id, (count_in(m, id) + 1) as i32)) == total(m) + 1,
        m.insert(id, (count_in(m, id) + 1) as i32).dom().finite(),
{
    let c = count_in(m, id);
    let m2 = m.insert(id, (c + 1) as i32);
    let e = key_seq(m.dom());
    let f = |k: i32| count_in(m, k);
    let f2 = |k: i32| count_in(m2, k);
    lemma_key_seq(m.dom());
    if m.dom().contains(id) {
        assert(m2.dom() =~= m.dom());
        let ind = |k: i32| if k == id { 1int } else { 0 };
        assert forall|k: i32| #[trigger] f2(k) == f(k) + 1 * ind(k) by {
            if k == id {
                assert(m2[id] == (c + 1) as i32);
            } else {
                assert(m2.dom().contains(k) == m.dom().contains(k));
            }
        }
        lemma_seq_sum_lin(e, f, ind, f2, 1);
        assert(e.to_set().contains(id));
        let i = choose|i: int| 0 <= i < e.len() && e[i] == id;
        lemma_seq_sum_remove(e, i, ind);
        assert forall|j: int| 0 <= j < e.remove(i).len() implies ind(#[trigger] e.remove(i)[j]) == 0 by {
            let jj = if j < i { j } else { j + 1 };
            assert(e.remove(i)[j] == e[jj]);
        }
        lemma_seq_sum_zero(e.remove(i), ind);
    } else {
        let e2 = e.push(id);
        assert(e2.no_duplicates()) by {
            assert forall|a: int, b: int| 0 <= a < b < e2.len() implies e2[a] != e2[b] by {
                if b == e.len() {
                    assert(e.to_set().contains(e[a]));
                }
            }
        }
        assert(e2.to_set() =~= m2.dom()) by {
            assert forall|k: i32| e2.to_set().contains(k) <==> m2.dom().contains(k) by {
                if e2.to_set().contains(k) {
                    let j = choose|j: int| 0 <= j < e2.len() && e2[j] == k;
                    if j < e.len() {
                        assert(e[j] == k);
                        assert(e.to_set().contains(k));
                    }
                }
                if m2.dom().contains(k) && k != id {
                    assert(e.to_set().contains(k));
                    let j = choose|j: int| 0 <= j < e.len() && e[j] == k;
                    assert(e2[j] == k);
                }
                if k == id {
                    assert(e2[e.len() as int] == k);
                }
            }
        }
        lemma_set_sum_seq(e2, f2);
        assert(e2.drop_last() =~= e);
        assert forall|j: int| 0 <= j < e.len() implies f2(#[trigger] e[j]) == f(e[j]) by {
            assert(e.to_set().contains(e[j]));
            assert(e[j] != id);
        }
        assert(f2(id) == c + 1);
        lemma_seq_sum_congr(e, f2, f);
    }
}

/// The binary branch of slot `y` of `t`: its label, the label of its first
/// child, and the label of its next sibling.
pub open spec fn branch_of(t: TreeArena, y: int) -> (Seq<char>, Option<Seq<char>>, Option<Seq<char>>) {
    (
        t.label(y),
        if t.size(y) > 1 {
            Some(t.label(y + 1))
        } else {
            None
        },
        if t.par(y) >= 0 && y + t.size(y) < t.par(y) + t.size(t.par(y)) {
            Some(t.label(y + t.size(y)))
        } else {
            None
        },
    )
}

/// The id of a label text, if any, under the label ids `l`.
pub open spec fn label_id_of(l: Map<Seq<char>, i32>, x: Option<Seq<char>>) -> Option<i32> {
    match x {
        Some(s) => Some(l[s]),
        None => None,
    }
}

/// The binary branch of slot `y` as a triple of label ids.
pub open spec fn branch_tuple(t: TreeArena, y: int, l: Map<Seq<char>, i32>) -> BbTuple {
    let b = branch_of(t, y);
    (l[b.0], label_id_of(l, b.1), label_id_of(l, b.2))
}

/// Number of nodes among the first `p` in postorder whose binary branch has
/// id `id`.
pub open spec fn branch_count(
    t: TreeArena,
    l: Map<Seq<char>, i32>,
    ids: Map<BbTuple, i32>,
    id: i32,
    p: int,
) -> int
    decreases p,
{
    if p <= 0 {
        0
    } else {
        branch_count(t, l, ids, id, p - 1) + (if ids[branch_tuple(t, crate::structural_split::post_slot(t, p - 1), l)]
            == id {
            1int
        } else {
            0
        })
    }
}

/// A tree as its size and its binary-branch vector.
pub struct BinaryBranchTree {
    pub size: usize,
    pub branch_vector: BranchVector,
}

impl BinaryBranchTree {
    /// The entries of the vector, each once, in the map's own order.
    pub fn entries_list(&self) -> (r: Vec<(i32, i32)>)
        ensures
            forall|a: int, b: int| 0 <= a < b < r@.len() ==> (#[trigger] r@[a]).0 != (#[trigger] r@[b]).0,
            forall|a: int|
                0 <= a < r@.len() ==> self.entries().dom().contains((#[trigger] r@[a]).0) && self.entries()[r@[a].0]
                    == r@[a].1,
            forall|k: i32| #[trigger] self.entries().dom().contains(k) ==> exists|a: int| 0 <= a < r@.len() && (#[trigger] r@[a]).0 == k,
    {
        branch_vector_list(&self.branch_vector)
    }

    /// Branch id to count.
    pub open spec fn entries(&self) -> Map<i32, i32> {
        branch_vector_entries(self.branch_vector)
    }

    /// Every held count is positive and the counts add up to the size.
    pub open spec fn wf(&self) -> bool {
        &&& self.size <= MAX_SEQ_LEN
        &&& self.entries().dom().finite()
        &&& forall|k: i32| #[trigger] self.entries().dom().contains(k) ==> self.entries()[k] >= 1
        &&& total(self.entries()) == self.size
    }

    /// The vector counts the binary branches of `t`, with labels and triples
    /// numbered by `l` and `ids`.
    pub open spec fn describes(&self, t: TreeArena, l: Map<Seq<char>, i32>, ids: Map<BbTuple, i32>) -> bool {
        &&& self.size == t.n()
        &&& forall|id: i32| #[trigger] count_in(self.entries(), id) == branch_count(t, l, ids, id, t.n())
    }
}

/// Numbers labels and binary-branch triples, consistently across the trees
/// it preprocesses.
pub struct BinaryBranchAlgorithm {
    next_bb_id: i32,
    binary_branch_id_map: BranchIdMap,
    label_ids: LabelDict,
    next_label_id: i32,
}

impl Default for BinaryBranchAlgorithm {
    fn default() -> (r: BinaryBranchAlgorithm)
        ensures
            r.wf(),
            r.labels().dom() == Set::<Seq<char>>::empty(),
            r.branch_ids().dom() == Set::<BbTuple>::empty(),
            r.next_id() == 0,
    {
        BinaryBranchAlgorithm {
            next_bb_id: 0,
            binary_branch_id_map: branch_ids_empty(),
            label_ids: LabelDict::new(),
            next_label_id: 0,
        }
    }
}

impl BinaryBranchAlgorithm {
    /// Label text to label id.
    pub closed spec fn labels(&self) -> Map<Seq<char>, i32> {
        self.label_ids.entries()
    }

    /// Triple to branch id.
    pub closed spec fn branch_ids(&self) -> Map<BbTuple, i32> {
        branch_id_entries(self.binary_branch_id_map)
    }

    /// The last branch id given out (0 before the first).
    pub closed spec fn next_id(&self) -> int {
        self.next_bb_id as int
    }

    /// Label ids are dense and counted by `next_label_id`; branch ids lie in
    /// `1..=next_bb_id`.
    pub closed spec fn wf(&self) -> bool {
        &&& self.label_ids.wf()
        &&& self.next_label_id as int == self.labels().len()
        &&& 0 <= self.next_bb_id
        &&& self.branch_ids().dom().finite()
        &&& forall|x: BbTuple| #[trigger] self.branch_ids().dom().contains(x) ==> 1 <= self.branch_ids()[x] <= self.next_bb_id
    }

    /// The id of `label`, giving a new label the next free id.
    pub fn bib_intern_label(&mut self, label: &str) -> (id: i32)
        requires
            old(self).wf(),
            old(self).labels().len() < i32::MAX,
        ensures
            final(self).wf(),
            final(self).branch_ids() == old(self).branch_ids(),
            final(self).next_id() == old(self).next_id(),
            final(self).labels().dom().contains(label@),
            final(self).labels()[label@] == id,
            old(self).labels().dom().contains(label@) ==> final(self).labels() == old(self).labels(),
            !old(self).labels().dom().contains(label@) ==> {
                &&& id as nat == old(self).labels().len()
                &&& final(self).labels() == old(self).labels().insert(label@, id)
            },
    {
        let known = self.label_ids.get(label).is_some();
        let id = intern(&mut self.label_ids, label);
        if !known {
            self.next_label_id = self.next_label_id + 1;
        }
        id
    }

    /// The id of a triple, giving a new triple the next id.
    pub fn bib_id_for(&mut self, tuple: BbTuple) -> (id: i32)
        requires
            old(self).wf(),
            old(self).next_id() < i32::MAX,
        ensures
            final(self).wf(),
            final(self).labels() == old(self).labels(),
            final(self).branch_ids().dom().contains(tuple),
            final(self).branch_ids()[tuple] == id,
            old(self).branch_ids().dom().contains(tuple) ==> final(self).branch_ids() == old(self).branch_ids()
                && final(self).next_id() == old(self).next_id(),
            !old(self).branch_ids().dom().contains(tuple) ==> {
                &&& id == old(self).next_id() + 1
                &&& final(self).next_id() == id
                &&& final(self).branch_ids() == old(self).branch_ids().insert(tuple, id)
            },
    {
        match branch_ids_get(&self.binary_branch_id_map, tuple) {
            Some(id) => id,
            None => {
                self.next_bb_id = self.next_bb_id + 1;
                let id = self.next_bb_id;
                branch_ids_insert(&mut self.binary_branch_id_map, tuple, id);
                id
            },
        }
    }
}

/// Counts over positions whose triples are already numbered do not change
/// when more triples get numbers.
proof fn lemma_branch_count_grow(
    t: TreeArena,
    l: Map<Seq<char>, i32>,
    ids: Map<BbTuple, i32>,
    ids2: Map<BbTuple, i32>,
    id: i32,
    p: int,
)
    requires
        forall|k: BbTuple| #[trigger] ids.dom().contains(k) ==> ids2.dom().contains(k) && ids2[k] == ids[k],
        forall|q: int| 0 <= q < p ==> ids.dom().contains(#[trigger] branch_tuple(t, post_slot(t, q), l)),
    ensures
        branch_count(t, l, ids, id, p) == branch_count(t, l, ids2, id, p),
    decreases p,
{
    if p > 0 {
        lemma_branch_count_grow(t, l, ids, ids2, id, p - 1);
        let x = branch_tuple(t, post_slot(t, p - 1), l);
        assert(ids.dom().contains(x));
    }
}

impl BinaryBranchAlgorithm {
    /// The binary-branch vector of the tree a substrate encodes, numbering
    /// its labels (in postorder) and its triples (in postorder) with this
    /// algorithm's shared numbering.
    #[verifier::rlimit(40)]
    pub fn bib_preprocess(&mut self, uti: &UnifiedTreeIndex) -> (r: BinaryBranchTree)
        requires
            old(self).wf(),
            uti.wf(),
            old(self).labels().len() + uti.n() < i32::MAX,
            old(self).next_id() + uti.n() < i32::MAX,
        ensures
            final(self).wf(),
            old(self).labels().submap_of(final(self).labels()),
            old(self).branch_ids().submap_of(final(self).branch_ids()),
            final(self).labels().len() <= old(self).labels().len() + uti.n(),
            final(self).next_id() <= old(self).next_id() + uti.n(),
            r.wf(),
            r.size == uti.tree_size,
            uti.n() == 0 ==> r.entries().dom() == Set::<i32>::empty(),
            forall|v: int| 0 <= v < uti.n() ==> final(self).labels().dom().contains(#[trigger] uti.labels@[v]@),
            uti.n() > 0 ==> exists|t: TreeArena|
                #![trigger uti.encodes(t)]
                {
                    &&& t.is_tree()
                    &&& uti.encodes(t)
                    &&& r.describes(t, final(self).labels(), final(self).branch_ids())
                    &&& forall|y: int|
                        0 <= y < t.n() ==> final(self).branch_ids().dom().contains(
                            #[trigger] branch_tuple(t, y, final(self).labels()),
                        )
                    &&& forall|q: int| 0 <= q < t.n() ==> 0 <= #[trigger] post_slot(t, q) < t.n()
                    &&& forall|y: int| 0 <= y < t.n() ==> final(self).labels().dom().contains(#[trigger] t.label(y))
                },
    {
        let n = uti.tree_size;
        let mut branch_vector = branch_vector_empty();
        proof {
            lemma_total_empty(branch_vector_entries(branch_vector));
        }
        if n == 0 {
            return BinaryBranchTree { size: 0, branch_vector };
        }
        let ghost l0 = self.labels();
        let ghost i0 = self.branch_ids();
        let mut v: usize = 0;
        while v < n
            invariant
                self.wf(),
                uti.wf(),
                n == uti.n(),
                v <= n,
                l0.submap_of(self.labels()),
                self.labels().len() <= l0.len() + v,
                l0.len() + n < i32::MAX,
                self.branch_ids() == i0,
                self.next_id() == old(self).next_id(),
                forall|w: int| 0 <= w < v ==> self.labels().dom().contains(#[trigger] uti.labels@[w]@),
            decreases n - v,
        {
            let ghost before = self.labels();
            self.bib_intern_label(&uti.labels[v]);
            proof {
                assert forall|w: int| 0 <= w < v + 1 implies self.labels().dom().contains(#[trigger] uti.labels@[w]@) by {
                    if w < v {
                        assert(before.dom().contains(uti.labels@[w]@));
                    }
                }
                vstd::map_lib::lemma_submap_of_trans(l0, before, self.labels());
            }
            v = v + 1;
        }
        let t = uti.rebuild_arena();
        let shape = crate::traversal::tree_shape(&t);
        let ghost l = self.labels();
        proof {
            assert forall|y: int| 0 <= y < n implies l.dom().contains(#[trigger] t.label(y)) by {
                crate::traversal::lemma_post_index_range(t, y);
                assert(uti.labels@[t.post_index(y)]@ == t.label(y));
            }
        }
        let mut p: usize = 0;
        while p < n
            invariant
                self.wf(),
                t.is_tree(),
                uti.encodes(t),
                crate::traversal::shape_of(t, shape),
                n == t.n(),
                p <= n,
                self.labels() == l,
                forall|y: int| 0 <= y < n ==> l.dom().contains(#[trigger] t.label(y)),
                i0.submap_of(self.branch_ids()),
                self.next_id() <= old(self).next_id() + p,
                old(self).next_id() + n < i32::MAX,
                branch_vector_entries(branch_vector).dom().finite(),
                forall|k: i32| #[trigger] branch_vector_entries(branch_vector).dom().contains(k) ==> 1 <= branch_vector_entries(branch_vector)[k] <= p,
                total(branch_vector_entries(branch_vector)) == p,
                forall|q: int| 0 <= q < p ==> self.branch_ids().dom().contains(#[trigger] branch_tuple(t, post_slot(t, q), l)),
                forall|id: i32| #[trigger] count_in(branch_vector_entries(branch_vector), id) == branch_count(t, l, self.branch_ids(), id, p as int),
            decreases n - p,
        {
            let y = shape.postorder[p];
            proof {
                assert(t.in_tree(shape.postorder@[p as int] as int));
                assert(t.post_index(y as int) == p);
                assert(t.node_ok(y as int));
                let s = post_slot(t, p as int);
                assert(0 <= s < n && t.post_index(s) == p);
                assert(shape.postorder@[t.post_index(s)] as int == s);
                assert(s == y);
            }
            let node = t.node(y);
            proof {
                assert(l.dom().contains(t.label(y as int)));
            }
            let own = self.label_ids.get(node.get()).unwrap();
            let left = match node.first_child {
                Some(c) => {
                    let ci = c.index();
                    proof {
                        assert(ci == y + 1);
                        assert(t.node_ok(ci as int));
                        assert(l.dom().contains(t.label(ci as int)));
                    }
                    Some(self.label_ids.get(t.node(ci).get()).unwrap())
                },
                None => None,
            };
            let right = match node.next_sibling {
                Some(c) => {
                    let ci = c.index();
                    proof {
                        assert(ci == y + t.size(y as int));
                        assert(t.par(y as int) >= 0);
                        assert(t.par(y as int) < y);
                        assert(t.size(t.par(y as int)) >= 1);
                        assert(t.node_ok(ci as int));
                        assert(l.dom().contains(t.label(ci as int)));
                    }
                    Some(self.label_ids.get(t.node(ci).get()).unwrap())
                },
                None => None,
            };
            let tuple: BbTuple = (own, left, right);
            proof {
                assert(tuple == branch_tuple(t, y as int, l));
            }
            let ghost ids_before = self.branch_ids();
            let ghost entries_before = branch_vector_entries(branch_vector);
            let id = self.bib_id_for(tuple);
            let c = match branch_vector_get(&branch_vector, id) {
                Some(c) => c,
                None => 0,
            };
            proof {
                assert(c == count_in(entries_before, id));
                assert(0 <= c <= p);
                lemma_total_bump(entries_before, id);
            }
            branch_vector_insert(&mut branch_vector, id, c + 1);
            proof {
                let ids_after = self.branch_ids();
                let e2 = branch_vector_entries(branch_vector);
                vstd::map_lib::lemma_submap_of_trans(i0, ids_before, ids_after);
                assert forall|k: BbTuple| #[trigger] ids_before.dom().contains(k) implies ids_after.dom().contains(k)
                    && ids_after[k] == ids_before[k] by {
                    if !ids_before.dom().contains(tuple) {
                        assert(k != tuple);
                    }
                }
                assert forall|x: i32| #[trigger] count_in(e2, x) == branch_count(t, l, ids_after, x, p + 1) by {
                    lemma_branch_count_grow(t, l, ids_before, ids_after, x, p as int);
                    assert(post_slot(t, p as int) == y);
                    assert(ids_after[branch_tuple(t, y as int, l)] == id);
                    assert(branch_count(t, l, ids_after, x, p + 1) == branch_count(t, l, ids_after, x, p as int) + (if id == x { 1int } else { 0 }));
                    assert(count_in(entries_before, x) == branch_count(t, l, ids_before, x, p as int));
                    if x == id {
                        assert(e2[id] == c + 1);
                    } else {
                        assert(e2.dom().contains(x) == entries_before.dom().contains(x));
                    }
                }
                assert forall|q: int| 0 <= q < p + 1 implies ids_after.dom().contains(#[trigger] branch_tuple(t, post_slot(t, q), l)) by {
                    if q < p {
                        assert(ids_before.dom().contains(branch_tuple(t, post_slot(t, q), l)));
                    } else {
                        assert(post_slot(t, q) == y);
                    }
                }
                assert forall|k: i32| #[trigger] e2.dom().contains(k) implies 1 <= e2[k] <= p + 1 by {
                    if k != id {
                        assert(entries_before.dom().contains(k));
                    }
                }
            }
            p = p + 1;
        }
        let r = BinaryBranchTree { size: n, branch_vector };
        proof {
            let fl = self.labels();
            let fi = self.branch_ids();
            assert forall|y: int| 0 <= y < t.n() implies fi.dom().contains(#[trigger] branch_tuple(t, y, fl)) by {
                crate::traversal::lemma_post_index_range(t, y);
                let q = t.post_index(y);
                assert(shape.postorder@[q] as int == y);
                let s = post_slot(t, q);
                assert(0 <= s < n && t.post_index(s) == q);
                assert(shape.postorder@[t.post_index(s)] as int == s);
                assert(fi.dom().contains(branch_tuple(t, post_slot(t, q), l)));
            }
            assert(r.describes(t, fl, fi));
            assert(uti.encodes(t));
            assert forall|q: int| 0 <= q < t.n() implies 0 <= #[trigger] post_slot(t, q) < t.n() by {
                assert(t.in_tree(shape.postorder@[q] as int));
                assert(t.post_index(shape.postorder@[q] as int) == q);
            }
        }
        r
    }
}

/// Divisor of the binary-branch theorem: the branch distance is at most
/// this many times the tree edit distance.
pub const BIB_DIVISOR: usize = 5;

/// The ids of a listing of vector entries.
pub open spec fn list_keys(list: Seq<(i32, i32)>) -> Seq<i32> {
    Seq::new(list.len(), |a: int| list[a].0)
}

/// A listing of the entries of `m`, each once, has its ids as a
/// duplicate-free listing of the ids of `m`.
proof fn lemma_list_keys(list: Seq<(i32, i32)>, m: Map<i32, i32>)
    requires
        forall|a: int, b: int| 0 <= a < b < list.len() ==> (#[trigger] list[a]).0 != (#[trigger] list[b]).0,
        forall|a: int| 0 <= a < list.len() ==> m.dom().contains((#[trigger] list[a]).0),
        forall|k: i32| #[trigger] m.dom().contains(k) ==> exists|a: int| 0 <= a < list.len() && (#[trigger] list[a]).0 == k,
    ensures
        list_keys(list).no_duplicates(),
        list_keys(list).to_set() == m.dom(),
{
    let e = list_keys(list);
    assert forall|a: int, b: int| 0 <= a < b < e.len() implies e[a] != e[b] by {
        assert(list[a].0 != list[b].0);
    }
    assert(e.to_set() =~= m.dom()) by {
        assert forall|k: i32| e.to_set().contains(k) <==> m.dom().contains(k) by {
            if e.to_set().contains(k) {
                let a = choose|a: int| 0 <= a < e.len() && e[a] == k;
                assert(list[a].0 == k);
            }
            if m.dom().contains(k) {
                let a = choose|a: int| 0 <= a < list.len() && (#[trigger] list[a]).0 == k;
                assert(e[a] == k);
            }
        }
    }
}

/// The intersection is at most the size of either vector.
proof fn lemma_common_bounds(d: Map<i32, i32>, q: Map<i32, i32>)
    requires
        d.dom().finite(),
        q.dom().finite(),
        forall|k: i32| #[trigger] d.dom().contains(k) ==> d[k] >= 1,
        forall|k: i32| #[trigger] q.dom().contains(k) ==> q[k] >= 1,
    ensures
        0 <= common(d, q) <= total(d),
        common(d, q) <= total(q),
{
    lemma_key_seq(d.dom());
    lemma_key_seq(q.dom());
    let e = key_seq(d.dom());
    let eq = key_seq(q.dom());
    let fm = |k: i32| min_count(d, q, k);
    let fd = |k: i32| count_in(d, k);
    let fq = |k: i32| count_in(q, k);
    let zero = |k: i32| 0int;
    assert forall|x: i32| #[trigger] fq(x) >= 0 by {}
    lemma_seq_sum_mono(e, fm, fd);
    lemma_seq_sum_mono(e, zero, fm);
    lemma_seq_sum_zero(e, zero);
    lemma_seq_sum_mono(e, fm, fq);
    assert forall|x: i32| e.contains(x) && fq(x) != 0 implies eq.contains(x) by {
        assert(q.dom().contains(x));
        assert(eq.to_set().contains(x));
    }
    lemma_seq_sum_sub(e, eq, fq);
}

/// Binary-branch distance: the size of the symmetric difference of the two
/// multisets of branches, `|data| + |query| - 2 * |intersection|`; when the
/// sizes differ by more than `threshold`, the least value over
/// `threshold * BIB_DIVISOR` instead.
pub open spec fn bib_dist(query: BinaryBranchTree, data: BinaryBranchTree, threshold: int) -> int {
    if data.size - query.size > threshold || query.size - data.size > threshold {
        threshold * BIB_DIVISOR + 1
    } else {
        data.size + query.size - 2 * common(data.entries(), query.entries())
    }
}

/// Computes `bib_dist`, matching the branches of `data` against those of
/// `query`.
pub fn bib_lower_bound(query: &BinaryBranchTree, data: &BinaryBranchTree, threshold: usize) -> (r: usize)
    requires
        query.wf(),
        data.wf(),
        data.size - query.size > threshold || query.size - data.size > threshold ==> threshold * BIB_DIVISOR + 1
            <= usize::MAX,
    ensures
        r as int == bib_dist(*query, *data, threshold as int),
{
    let t1s = data.size;
    let t2s = query.size;
    let diff = if t1s >= t2s { t1s - t2s } else { t2s - t1s };
    if diff > threshold {
        return threshold * BIB_DIVISOR + 1;
    }
    let ghost d = data.entries();
    let ghost q = query.entries();
    let list = branch_vector_list(&data.branch_vector);
    let ghost e = list_keys(list@);
    let ghost fm = |k: i32| min_count(d, q, k);
    let ghost fd = |k: i32| count_in(d, k);
    proof {
        lemma_list_keys(list@, d);
        lemma_common_bounds(d, q);
        lemma_set_sum_seq(e, fm);
        lemma_set_sum_seq(e, fd);
    }
    let mut intersection_size: usize = 0;
    let mut j: usize = 0;
    while j < list.len()
        invariant
            j <= list@.len(),
            e == list_keys(list@),
            e.no_duplicates(),
            e.to_set() == d.dom(),
            d == data.entries(),
            q == query.entries(),
            data.wf(),
            query.wf(),
            forall|a: int| 0 <= a < list@.len() ==> d.dom().contains((#[trigger] list@[a]).0) && d[list@[a].0] == list@[a].1,
            intersection_size as int == seq_sum(e.take(j as int), fm),
            seq_sum(e, fd) == data.size,
            fm == (|k: i32| min_count(d, q, k)),
            fd == (|k: i32| count_in(d, k)),
        decreases list@.len() - j,
    {
        let (label, postings) = list[j];
        proof {
            assert(e.take(j + 1).drop_last() =~= e.take(j as int));
            assert(e.take(j + 1).last() == label);
            assert(e.take(j + 1).no_duplicates());
            assert forall|x: i32| e.take(j + 1).contains(x) && fd(x) != 0 implies e.contains(x) by {
                let et = e.take(j + 1);
                let a = choose|a: int| 0 <= a < et.len() && et[a] == x;
                assert(e[a] == x);
            }
            assert forall|x: i32| #[trigger] fd(x) >= 0 by {}
            lemma_seq_sum_sub(e.take(j + 1), e, fd);
            lemma_seq_sum_mono(e.take(j + 1), fm, fd);
        }
        match branch_vector_get(&query.branch_vector, label) {
            Some(q_postings) => {
                let m = if q_postings <= postings { q_postings } else { postings };
                intersection_size = intersection_size + m as usize;
            },
            None => {},
        }
        j = j + 1;
    }
    proof {
        assert(e.take(e.len() as int) =~= e);
    }
    (t1s + t2s) - (2 * intersection_size)
}

/// `|c_d - c_q|` for branch `id`.
pub open spec fn abs_count_diff(d: Map<i32, i32>, q: Map<i32, i32>, id: i32) -> int {
    if count_in(d, id) >= count_in(q, id) {
        count_in(d, id) - count_in(q, id)
    } else {
        count_in(q, id) - count_in(d, id)
    }
}

/// The count of `id` in `q` when `d` lacks `id`, else 0.
pub open spec fn only_in_q(d: Map<i32, i32>, q: Map<i32, i32>, id: i32) -> int {
    if d.dom().contains(id) {
        0
    } else {
        count_in(q, id)
    }
}

/// The branch distance as an L1 sum: the count differences over the
/// branches of `data`, plus the counts of the branches only `query` has;
/// `threshold + 1` when the sizes differ by more than `threshold`.
pub open spec fn bib_l1_dist(query: BinaryBranchTree, data: BinaryBranchTree, threshold: int) -> int {
    let d = data.entries();
    let q = query.entries();
    if data.size - query.size > threshold || query.size - data.size > threshold {
        threshold + 1
    } else {
        set_sum(d.dom(), |k: i32| abs_count_diff(d, q, k)) + set_sum(q.dom(), |k: i32| only_in_q(d, q, k))
    }
}

/// Computes `bib_l1_dist` by two passes over the vectors.
pub fn bib_lower_bound_l1(query: &BinaryBranchTree, data: &BinaryBranchTree, threshold: usize) -> (r: usize)
    requires
        query.wf(),
        data.wf(),
    ensures
        r as int == bib_l1_dist(*query, *data, threshold as int),
{
    let t1s = data.size;
    let t2s = query.size;
    let diff = if t1s >= t2s { t1s - t2s } else { t2s - t1s };
    if diff > threshold {
        return threshold + 1;
    }
    let ghost d = data.entries();
    let ghost q = query.entries();
    let ghost fa = |k: i32| abs_count_diff(d, q, k);
    let ghost fo = |k: i32| only_in_q(d, q, k);
    let ghost fd = |k: i32| count_in(d, k);
    let ghost fq = |k: i32| count_in(q, k);
    let list = branch_vector_list(&data.branch_vector);
    let qlist = branch_vector_list(&query.branch_vector);
    let ghost e = list_keys(list@);
    let ghost eq = list_keys(qlist@);
    proof {
        lemma_list_keys(list@, d);
        lemma_list_keys(qlist@, q);
        lemma_set_sum_seq(e, fa);
        lemma_set_sum_seq(eq, fo);
        lemma_set_sum_seq(e, fd);
        lemma_set_sum_seq(eq, fq);
        assert forall|x: i32| #[trigger] fq(x) >= 0 by {}
        assert forall|x: i32| #[trigger] fd(x) >= 0 by {}
        assert forall|x: i32| e.contains(x) && fq(x) != 0 implies eq.contains(x) by {
            assert(q.dom().contains(x));
            assert(eq.to_set().contains(x));
        }
        lemma_seq_sum_sub(e, eq, fq);
        let g = |k: i32| count_in(d, k) + count_in(q, k);
        assert forall|x: i32| #[trigger] g(x) == fd(x) + 1 * fq(x) by {}
        lemma_seq_sum_lin(e, fd, fq, g, 1);
        bib_l1_matches_symmetric_difference(*query, *data, threshold as int);
        lemma_common_bounds(d, q);
        assert(seq_sum(e, fa) + seq_sum(eq, fo) <= data.size + query.size);
    }
    let mut dist: i32 = 0;
    let mut j: usize = 0;
    while j < list.len()
        invariant
            j <= list@.len(),
            e == list_keys(list@),
            e.no_duplicates(),
            d == data.entries(),
            q == query.entries(),
            data.wf(),
            query.wf(),
            forall|a: int| 0 <= a < list@.len() ==> d.dom().contains((#[trigger] list@[a]).0) && d[list@[a].0] == list@[a].1,
            dist as int == seq_sum(e.take(j as int), fa),
            seq_sum(e, |k: i32| count_in(d, k) + count_in(q, k)) <= data.size + query.size,
            fa == (|k: i32| abs_count_diff(d, q, k)),
            t1s == data.size,
            t2s == query.size,
            t1s + t2s <= 2 * MAX_SEQ_LEN,
        decreases list@.len() - j,
    {
        let (label, postings) = list[j];
        proof {
            let g = |k: i32| count_in(d, k) + count_in(q, k);
            assert(e.take(j + 1).drop_last() =~= e.take(j as int));
            assert(e.take(j + 1).last() == label);
            assert(e.take(j + 1).no_duplicates());
            assert forall|x: i32| #[trigger] g(x) >= 0 by {}
            assert forall|x: i32| e.take(j + 1).contains(x) && g(x) != 0 implies e.contains(x) by {
                let et = e.take(j + 1);
                let a = choose|a: int| 0 <= a < et.len() && et[a] == x;
                assert(e[a] == x);
            }
            lemma_seq_sum_sub(e.take(j + 1), e, g);
            lemma_seq_sum_mono(e.take(j + 1), fa, g);
            assert(count_in(d, label) == postings);
        }
        let q_postings = match branch_vector_get(&query.branch_vector, label) {
            Some(c) => c,
            None => 0,
        };
        proof {
            assert(q_postings == count_in(q, label));
        }
        let a = if postings >= q_postings { postings - q_postings } else { q_postings - postings };
        dist = dist + a;
        j = j + 1;
    }
    proof {
        assert(e.take(e.len() as int) =~= e);
        let g = |k: i32| count_in(d, k) + count_in(q, k);
        lemma_seq_sum_mono(e, fa, g);
        let zero = |k: i32| 0int;
        lemma_seq_sum_zero(e, zero);
        lemma_seq_sum_mono(e, zero, fa);
    }
    let mut i: usize = 0;
    while i < qlist.len()
        invariant
            i <= qlist@.len(),
            eq == list_keys(qlist@),
            eq.no_duplicates(),
            d == data.entries(),
            q == query.entries(),
            data.wf(),
            query.wf(),
            forall|a: int| 0 <= a < qlist@.len() ==> q.dom().contains((#[trigger] qlist@[a]).0) && q[qlist@[a].0] == qlist@[a].1,
            dist as int == seq_sum(e, fa) + seq_sum(eq.take(i as int), fo),
            seq_sum(e, fa) <= data.size + query.size,
            seq_sum(eq, fq) == query.size,
            fo == (|k: i32| only_in_q(d, q, k)),
            fq == (|k: i32| count_in(q, k)),
            t1s == data.size,
            t2s == query.size,
            t1s + t2s <= 2 * MAX_SEQ_LEN,
            seq_sum(e, fa) + seq_sum(eq, fo) <= data.size + query.size,
        decreases qlist@.len() - i,
    {
        let (label, postings) = qlist[i];
        proof {
            assert(eq.take(i + 1).drop_last() =~= eq.take(i as int));
            assert(eq.take(i + 1).last() == label);
            assert(eq.take(i + 1).no_duplicates());
            assert forall|x: i32| #[trigger] fq(x) >= 0 by {}
            assert forall|x: i32| eq.take(i + 1).contains(x) && fq(x) != 0 implies eq.contains(x) by {
                let et = eq.take(i + 1);
                let a = choose|a: int| 0 <= a < et.len() && et[a] == x;
                assert(eq[a] == x);
            }
            lemma_seq_sum_sub(eq.take(i + 1), eq, fq);
            lemma_seq_sum_mono(eq.take(i + 1), fo, fq);
            assert forall|x: i32| #[trigger] fo(x) >= 0 by {}
            assert forall|x: i32| eq.take(i + 1).contains(x) && fo(x) != 0 implies eq.contains(x) by {
                let et = eq.take(i + 1);
                let a = choose|a: int| 0 <= a < et.len() && et[a] == x;
                assert(eq[a] == x);
            }
            lemma_seq_sum_sub(eq.take(i + 1), eq, fo);
            assert(count_in(q, label) == postings);
        }
        if branch_vector_get(&data.branch_vector, label).is_none() {
            dist = dist + postings;
        }
        i = i + 1;
    }
    proof {
        assert(eq.take(eq.len() as int) =~= eq);
        let zero = |k: i32| 0int;
        lemma_seq_sum_zero(eq, zero);
        lemma_seq_sum_mono(eq, zero, fo);
    }
    dist as usize
}

/// Law: the branch distance is symmetric in its two trees.
pub proof fn bib_distance_symmetric(x: BinaryBranchTree, y: BinaryBranchTree, threshold: int)
    requires
        x.wf(),
        y.wf(),
    ensures
        bib_dist(x, y, threshold) == bib_dist(y, x, threshold),
{
    let d = y.entries();
    let q = x.entries();
    lemma_key_seq(d.dom());
    lemma_key_seq(q.dom());
    let e = key_seq(d.dom());
    let eq = key_seq(q.dom());
    let f = |k: i32| min_count(d, q, k);
    let g = |k: i32| min_count(q, d, k);
    assert forall|k: i32| f(k) != 0 implies (e.contains(k) <==> eq.contains(k)) by {
        assert(d.dom().contains(k) && q.dom().contains(k));
        assert(e.to_set().contains(k) && eq.to_set().contains(k));
    }
    lemma_seq_sum_support(e, eq, f);
    assert forall|i: int| 0 <= i < eq.len() implies f(#[trigger] eq[i]) == g(eq[i]) by {}
    lemma_seq_sum_congr(eq, f, g);
}

/// Law: a tree is at branch distance 0 from itself.
pub proof fn bib_self_distance_zero(x: BinaryBranchTree, threshold: int)
    requires
        x.wf(),
        threshold >= 0,
    ensures
        bib_dist(x, x, threshold) == 0,
{
    let d = x.entries();
    lemma_key_seq(d.dom());
    let e = key_seq(d.dom());
    let f = |k: i32| min_count(d, d, k);
    let g = |k: i32| count_in(d, k);
    assert forall|i: int| 0 <= i < e.len() implies f(#[trigger] e[i]) == g(e[i]) by {}
    lemma_seq_sum_congr(e, f, g);
}

/// Law: within the size gate, the L1 sum and the symmetric-difference form
/// of the branch distance agree.
pub proof fn bib_l1_matches_symmetric_difference(query: BinaryBranchTree, data: BinaryBranchTree, threshold: int)
    requires
        query.wf(),
        data.wf(),
        !(data.size - query.size > threshold || query.size - data.size > threshold),
    ensures
        bib_l1_dist(query, data, threshold) == bib_dist(query, data, threshold),
{
    let d = data.entries();
    let q = query.entries();
    lemma_key_seq(d.dom());
    lemma_key_seq(q.dom());
    let e = key_seq(d.dom());
    let eq = key_seq(q.dom());
    let fa = |k: i32| abs_count_diff(d, q, k);
    let fo = |k: i32| only_in_q(d, q, k);
    let fd = |k: i32| count_in(d, k);
    let fq = |k: i32| count_in(q, k);
    let fm = |k: i32| min_count(d, q, k);
    let g = |k: i32| count_in(q, k) - 2 * min_count(d, q, k);
    let ind = |k: i32| if d.dom().contains(k) { count_in(q, k) } else { 0 };
    assert forall|k: i32| #[trigger] fa(k) == fd(k) + 1 * g(k) by {}
    lemma_seq_sum_lin(e, fd, g, fa, 1);
    assert forall|k: i32| #[trigger] g(k) == fq(k) + (-2) * fm(k) by {}
    lemma_seq_sum_lin(e, fq, fm, g, -2);
    assert forall|k: i32| #[trigger] fo(k) == fq(k) + (-1) * ind(k) by {}
    lemma_seq_sum_lin(eq, fq, ind, fo, -1);
    assert forall|i: int| 0 <= i < e.len() implies fq(#[trigger] e[i]) == ind(e[i]) by {
        assert(e.to_set().contains(e[i]));
    }
    lemma_seq_sum_congr(e, fq, ind);
    assert forall|k: i32| ind(k) != 0 implies (e.contains(k) <==> eq.contains(k)) by {
        assert(d.dom().contains(k) && q.dom().contains(k));
        assert(e.to_set().contains(k) && eq.to_set().contains(k));
    }
    lemma_seq_sum_support(e, eq, ind);
}

/// The label texts of a triple of strings.
pub open spec fn tuple_text(x: (String, Option<String>, Option<String>)) -> (Seq<char>, Option<Seq<char>>, Option<Seq<char>>) {
    (
        x.0@,
        match x.1 {
            Some(s) => Some(s@),
            None => None,
        },
        match x.2 {
            Some(s) => Some(s@),
            None => None,
        },
    )
}

impl UnifiedTreeIndex {
    /// The children of every node, left to right, by postorder id.
    pub fn bib_children(&self) -> (r: Vec<Vec<usize>>)
        requires
            self.wf(),
        ensures
            r@.len() == self.n(),
            forall|u: int| 0 <= u < self.n() ==> self.children_are(u, #[trigger] r@[u]@),
    {
        let n = self.tree_size;
        let mut children: Vec<Vec<usize>> = Vec::new();
        let mut i: usize = 0;
        while i < n
            invariant
                self.wf(),
                n == self.n(),
                i <= n,
                children@.len() == i,
                forall|u: int| 0 <= u < i ==> self.children_are(u, #[trigger] children@[u]@),
            decreases n - i,
        {
            children.push(self.children_of(i));
            i = i + 1;
        }
        children
    }

    /// The binary branch of every node as label texts, by postorder id.
    pub fn bib_branch_tuples_str(&self) -> (r: Vec<(String, Option<String>, Option<String>)>)
        requires
            self.wf(),
        ensures
            r@.len() == self.n(),
            self.n() > 0 ==> exists|t: TreeArena|
                #![trigger self.encodes(t)]
                {
                    &&& t.is_tree()
                    &&& self.encodes(t)
                    &&& forall|y: int| 0 <= y < t.n() ==> tuple_text(#[trigger] r@[t.post_index(y)]) == branch_of(t, y)
                },
    {
        let n = self.tree_size;
        let mut out: Vec<(String, Option<String>, Option<String>)> = Vec::new();
        if n == 0 {
            return out;
        }
        let t = self.rebuild_arena();
        let shape = crate::traversal::tree_shape(&t);
        let mut p: usize = 0;
        while p < n
            invariant
                t.is_tree(),
                self.encodes(t),
                crate::traversal::shape_of(t, shape),
                n == t.n(),
                p <= n,
                out@.len() == p,
                forall|q: int| 0 <= q < p ==> tuple_text(#[trigger] out@[q]) == branch_of(t, shape.postorder@[q] as int),
            decreases n - p,
        {
            let y = shape.postorder[p];
            proof {
                assert(t.in_tree(shape.postorder@[p as int] as int));
                assert(t.node_ok(y as int));
            }
            let node = t.node(y);
            let own = node.get().clone();
            let left = match node.first_child {
                Some(c) => {
                    let ci = c.index();
                    proof {
                        assert(t.node_ok(ci as int));
                    }
                    Some(t.node(ci).get().clone())
                },
                None => None,
            };
            let right = match node.next_sibling {
                Some(c) => {
                    let ci = c.index();
                    proof {
                        assert(t.par(y as int) >= 0);
                        assert(t.par(y as int) < y);
                        assert(t.size(t.par(y as int)) >= 1);
                        assert(t.node_ok(ci as int));
                    }
                    Some(t.node(ci).get().clone())
                },
                None => None,
            };
            let x = (own, left, right);
            proof {
                assert(tuple_text(x) == branch_of(t, y as int));
            }
            out.push(x);
            p = p + 1;
        }
        proof {
            assert forall|y: int| 0 <= y < t.n() implies tuple_text(#[trigger] out@[t.post_index(y)]) == branch_of(t, y) by {
                crate::traversal::lemma_post_index_range(t, y);
                assert(shape.postorder@[t.post_index(y)] as int == y);
            }
        }
        out
    }
}


/// A vector that describes `t` under some numbering still describes it
/// under a larger numbering that keeps the numbers of `t`'s labels and
/// triples.
proof fn lemma_describes_lift(
    x: BinaryBranchTree,
    t: TreeArena,
    l1: Map<Seq<char>, i32>,
    i1: Map<BbTuple, i32>,
    l2: Map<Seq<char>, i32>,
    i2: Map<BbTuple, i32>,
)
    requires
        t.wf(),
        x.describes(t, l1, i1),
        forall|s: Seq<char>| #[trigger] l1.dom().contains(s) ==> l2.dom().contains(s) && l2[s] == l1[s],
        forall|k: BbTuple| #[trigger] i1.dom().contains(k) ==> i2.dom().contains(k) && i2[k] == i1[k],
        forall|y: int| 0 <= y < t.n() ==> l1.dom().contains(#[trigger] t.label(y)),
        forall|q: int| 0 <= q < t.n() ==> 0 <= #[trigger] post_slot(t, q) < t.n(),
        forall|y: int| 0 <= y < t.n() ==> i1.dom().contains(#[trigger] branch_tuple(t, y, l1)),
    ensures
        x.describes(t, l2, i2),
{
    assert forall|y: int| 0 <= y < t.n() implies #[trigger] branch_tuple(t, y, l1) == branch_tuple(t, y, l2) by {
        assert(l1.dom().contains(t.label(y)));
        if t.size(y) > 1 {
            assert(t.size(y) >= 1 && y + t.size(y) <= t.n());
            assert(l1.dom().contains(t.label(y + 1)));
        }
        if t.par(y) >= 0 && y + t.size(y) < t.par(y) + t.size(t.par(y)) {
            assert(t.par(y) < y);
            assert(t.size(t.par(y)) >= 1 && t.par(y) + t.size(t.par(y)) <= t.n());
            assert(l1.dom().contains(t.label(y + t.size(y))));
        }
    }
    assert forall|id: i32| #[trigger] count_in(x.entries(), id) == branch_count(t, l2, i2, id, t.n()) by {
        lemma_branch_count_lift(t, l1, i1, l2, i2, id, t.n());
    }
}

proof fn lemma_branch_count_lift(
    t: TreeArena,
    l1: Map<Seq<char>, i32>,
    i1: Map<BbTuple, i32>,
    l2: Map<Seq<char>, i32>,
    i2: Map<BbTuple, i32>,
    id: i32,
    p: int,
)
    requires
        p <= t.n(),
        forall|k: BbTuple| #[trigger] i1.dom().contains(k) ==> i2.dom().contains(k) && i2[k] == i1[k],
        forall|q: int| 0 <= q < t.n() ==> 0 <= #[trigger] post_slot(t, q) < t.n(),
        forall|y: int| 0 <= y < t.n() ==> i1.dom().contains(#[trigger] branch_tuple(t, y, l1)),
        forall|y: int| 0 <= y < t.n() ==> #[trigger] branch_tuple(t, y, l1) == branch_tuple(t, y, l2),
    ensures
        branch_count(t, l1, i1, id, p) == branch_count(t, l2, i2, id, p),
    decreases p,
{
    if p > 0 {
        lemma_branch_count_lift(t, l1, i1, l2, i2, id, p - 1);
        let y = post_slot(t, p - 1);
        assert(0 <= y < t.n());
        assert(branch_tuple(t, y, l1) == branch_tuple(t, y, l2));
        assert(i1.dom().contains(branch_tuple(t, y, l1)));
    }
}

proof fn lemma_submap_at<K, V>(m1: Map<K, V>, m2: Map<K, V>)
    requires
        m1.submap_of(m2),
    ensures
        forall|k: K| #[trigger] m1.dom().contains(k) ==> m2.dom().contains(k) && m2[k] == m1[k],
{
    assert forall|k: K| #[trigger] m1.dom().contains(k) implies m2.dom().contains(k) && m2[k] == m1[k] by {
        assert(m1.dom().contains(k) && m2.dom().contains(k) ==> m1[k] == m2[k]);
    }
}

/// Binary-branch lower bound, then the bounded tree edit distance: a pair is
/// filtered out exactly when the branch distance of the two trees, their
/// triples numbered alike, exceeds `BIB_DIVISOR * k`.
pub fn binary_branch_topdiff_within(query: &UnifiedTreeIndex, cand: &UnifiedTreeIndex, k: i32) -> (r: i32)
    requires
        query.wf(),
        cand.wf(),
        k < i32::MAX,
    ensures
        pipeline_result(*query, *cand, k as int, r as int),
        !(k < 0 || query.n() - cand.n() > k || cand.n() - query.n() > k || query.n() == 0 || cand.n() == 0) ==> exists|
            x: BinaryBranchTree,
            y: BinaryBranchTree,
            t1: TreeArena,
            t2: TreeArena,
            l: Map<Seq<char>, i32>,
            ids: Map<BbTuple, i32>,
        |
            #![trigger x.describes(t1, l, ids), y.describes(t2, l, ids)]
            {
                &&& t1.is_tree()
                &&& t2.is_tree()
                &&& query.encodes(t1)
                &&& cand.encodes(t2)
                &&& x.wf()
                &&& y.wf()
                &&& x.describes(t1, l, ids)
                &&& y.describes(t2, l, ids)
                &&& filtered_result(*query, *cand, k as int, bib_dist(x, y, k as int) > BIB_DIVISOR * k, r as int)
            },
{
    if let Some(x) = size_gates(query, cand, k) {
        return x;
    }
    let k_usize = k as usize;
    let mut algo = BinaryBranchAlgorithm::default();
    let q_bb = algo.bib_preprocess(query);
    let ghost l1 = algo.labels();
    let ghost i1 = algo.branch_ids();
    let c_bb = algo.bib_preprocess(cand);
    let ghost l2 = algo.labels();
    let ghost i2 = algo.branch_ids();
    proof {
        let t1 = choose|t: TreeArena|
            {
                &&& t.is_tree()
                &&& query.encodes(t)
                &&& q_bb.describes(t, l1, i1)
                &&& forall|y: int| 0 <= y < t.n() ==> i1.dom().contains(#[trigger] branch_tuple(t, y, l1))
                &&& forall|q: int| 0 <= q < t.n() ==> 0 <= #[trigger] post_slot(t, q) < t.n()
                &&& forall|y: int| 0 <= y < t.n() ==> l1.dom().contains(#[trigger] t.label(y))
            };
        lemma_submap_at(l1, l2);
        lemma_submap_at(i1, i2);
        lemma_describes_lift(q_bb, t1, l1, i1, l2, i2);
        assert(q_bb.describes(t1, l2, i2));
    }
    let dist = bib_lower_bound(&q_bb, &c_bb, k_usize);
    if dist as u64 > (BIB_DIVISOR as u64) * (k_usize as u64) {
        return k + 1;
    }
    let (_q_sed, q_td, _c_sed, c_td) = expand_pair(query, cand);
    ted_k(&q_td, &c_td, k)
}

} // verus!
