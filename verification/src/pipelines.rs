//! Two-stage similarity pipelines over postorder substrates: a cheap lower
//! bound first, and the bounded tree edit distance only for the pairs that
//! pass it.  Each returns the tree edit distance when the pair is within `k`
//! and was not filtered out, and `k + 1` otherwise.

use crate::collections::LabelDict;
use crate::edit_distance::{edit_distance, max_int, MAX_SEQ_LEN};
use crate::sed::{bounded_sed, bounded_sed_struct_int, SEDIndex, SEDStructIndexInt};
use crate::structural::{overlap, ted as structural_lb, LabelSetConverter, StructuralFilterTuple};
use crate::topdiff::{clamp, fdist, ted, ted_k, tree_distance, TopDiffIndex};
use crate::tree::TreeArena;
use crate::string_bounds::{lemma_depth_agree, substrate_determines_tree, traversal_ed_within_ted};
use crate::traversal::lemma_post_index_range;
use crate::unified::UnifiedTreeIndex;
use vstd::prelude::*;

verus! {

/// Edit distance between the forest `[a, b)` of the tree `s1` encodes and the
/// forest `[c, d)` of `s2` (postorder ids), by the recursion of `fdist`, with
/// labels compared by their text.
pub open spec fn sfdist(s1: UnifiedTreeIndex, s2: UnifiedTreeIndex, a: int, b: int, c: int, d: int) -> int
    decreases (if b > a { b - a } else { 0 }) + (if d > c { d - c } else { 0 }),
{
    if b <= a {
        if d <= c {
            0
        } else {
            d - c
        }
    } else if d <= c {
        b - a
    } else {
        let v = b - 1;
        let w = d - 1;
        let lv = clamp(s1.lml(v), a, v);
        let lw = clamp(s2.lml(w), c, w);
        let del = sfdist(s1, s2, a, v, c, d) + 1;
        let ins = sfdist(s1, s2, a, b, c, w) + 1;
        let cost: int = if s1.labels@[v]@ == s2.labels@[w]@ { 0 } else { 1 };
        let map = if lv == a && lw == c {
            sfdist(s1, s2, a, v, c, w) + cost
        } else {
            sfdist(s1, s2, a, lv, c, lw) + sfdist(s1, s2, lv, b, lw, d)
        };
        if del <= ins && del <= map {
            del
        } else if ins <= map {
            ins
        } else {
            map
        }
    }
}

/// Tree edit distance between the trees two substrates encode.
pub open spec fn substrate_ted(s1: UnifiedTreeIndex, s2: UnifiedTreeIndex) -> int {
    sfdist(s1, s2, 0, s1.n(), 0, s2.n())
}

/// The forest distance between substrates does not depend on which forest
/// comes first.
proof fn lemma_sfdist_symmetric(s1: UnifiedTreeIndex, s2: UnifiedTreeIndex, a: int, b: int, c: int, d: int)
    ensures
        sfdist(s1, s2, a, b, c, d) == sfdist(s2, s1, c, d, a, b),
    decreases (if b > a { b - a } else { 0 }) + (if d > c { d - c } else { 0 }),
{
    if b > a && d > c {
        let v = b - 1;
        let w = d - 1;
        let lv = clamp(s1.lml(v), a, v);
        let lw = clamp(s2.lml(w), c, w);
        lemma_sfdist_symmetric(s1, s2, a, v, c, d);
        lemma_sfdist_symmetric(s1, s2, a, b, c, w);
        if lv == a && lw == c {
            lemma_sfdist_symmetric(s1, s2, a, v, c, w);
        } else {
            lemma_sfdist_symmetric(s1, s2, a, lv, c, lw);
            lemma_sfdist_symmetric(s1, s2, lv, b, lw, d);
        }
    }
}

proof fn lemma_sfdist_bounds(s1: UnifiedTreeIndex, s2: UnifiedTreeIndex, a: int, b: int, c: int, d: int)
    requires
        a <= b,
        c <= d,
    ensures
        0 <= sfdist(s1, s2, a, b, c, d) <= (b - a) + (d - c),
    decreases (b - a) + (d - c),
{
    if b > a && d > c {
        let v = b - 1;
        let w = d - 1;
        let lv = clamp(s1.lml(v), a, v);
        let lw = clamp(s2.lml(w), c, w);
        lemma_sfdist_bounds(s1, s2, a, v, c, d);
        lemma_sfdist_bounds(s1, s2, a, b, c, w);
        if lv == a && lw == c {
            lemma_sfdist_bounds(s1, s2, a, v, c, w);
        } else {
            lemma_sfdist_bounds(s1, s2, a, lv, c, lw);
            lemma_sfdist_bounds(s1, s2, lv, b, lw, d);
        }
    }
}

proof fn lemma_sfdist_self(s: UnifiedTreeIndex, a: int, b: int)
    requires
        a <= b,
    ensures
        sfdist(s, s, a, b, a, b) == 0,
    decreases b - a,
{
    if b > a {
        let v = b - 1;
        let lv = clamp(s.lml(v), a, v);
        lemma_sfdist_bounds(s, s, a, v, a, b);
        lemma_sfdist_bounds(s, s, a, b, a, v);
        if lv == a {
            lemma_sfdist_self(s, a, v);
        } else {
            lemma_sfdist_self(s, a, lv);
            lemma_sfdist_self(s, lv, b);
        }
    }
}

/// Law: the tree edit distance between substrates is symmetric.
pub proof fn substrate_ted_symmetric(s1: UnifiedTreeIndex, s2: UnifiedTreeIndex)
    ensures
        substrate_ted(s1, s2) == substrate_ted(s2, s1),
{
    lemma_sfdist_symmetric(s1, s2, 0, s1.n(), 0, s2.n());
}

/// Law: a substrate is at tree edit distance 0 from itself, and every
/// distance lies between 0 and the sum of the two sizes.
pub proof fn substrate_ted_identity_and_range(s1: UnifiedTreeIndex, s2: UnifiedTreeIndex)
    requires
        s1.wf(),
        s2.wf(),
    ensures
        substrate_ted(s1, s1) == 0,
        0 <= substrate_ted(s1, s2) <= s1.n() + s2.n(),
{
    lemma_sfdist_self(s1, 0, s1.n());
    lemma_sfdist_bounds(s1, s2, 0, s1.n(), 0, s2.n());
}

/// The interned indexes have the substrates' sizes, and equal label ids
/// exactly for equal label texts; then their distances agree.
proof fn lemma_fdist_substrate(
    t1: TopDiffIndex,
    t2: TopDiffIndex,
    s1: UnifiedTreeIndex,
    s2: UnifiedTreeIndex,
    a: int,
    b: int,
    c: int,
    d: int,
)
    requires
        t1.postl_to_size@ == s1.sizes@,
        t2.postl_to_size@ == s2.sizes@,
        0 <= a <= b <= s1.n(),
        0 <= c <= d <= s2.n(),
        s1.labels@.len() == s1.n(),
        s2.labels@.len() == s2.n(),
        forall|v: int, w: int|
            0 <= v < s1.n() && 0 <= w < s2.n() ==> (#[trigger] t1.lbl(v) == #[trigger] t2.lbl(w)) == (s1.labels@[v]@
                == s2.labels@[w]@),
    ensures
        fdist(t1, t2, a, b, c, d) == sfdist(s1, s2, a, b, c, d),
    decreases (b - a) + (d - c),
{
    if b > a && d > c {
        let v = b - 1;
        let w = d - 1;
        assert(t1.sz(v) == s1.sz(v));
        assert(t2.sz(w) == s2.sz(w));
        let lv = clamp(t1.lml(v), a, v);
        let lw = clamp(t2.lml(w), c, w);
        lemma_fdist_substrate(t1, t2, s1, s2, a, v, c, d);
        lemma_fdist_substrate(t1, t2, s1, s2, a, b, c, w);
        assert((t1.lbl(v) == t2.lbl(w)) == (s1.labels@[v]@ == s2.labels@[w]@));
        if lv == a && lw == c {
            lemma_fdist_substrate(t1, t2, s1, s2, a, v, c, w);
        } else {
            lemma_fdist_substrate(t1, t2, s1, s2, a, lv, c, lw);
            lemma_fdist_substrate(t1, t2, s1, s2, lv, b, lw, d);
        }
    }
}

/// Expands two non-empty substrates with one shared dictionary; the two
/// structural traversals and two postorder indexes agree on label ids, and
/// the indexes are at the substrates' tree edit distance.
pub(crate) fn expand_pair(query: &UnifiedTreeIndex, cand: &UnifiedTreeIndex) -> (r: (SEDStructIndexInt, TopDiffIndex, SEDStructIndexInt, TopDiffIndex))
    requires
        query.wf(),
        cand.wf(),
        query.n() > 0,
        cand.n() > 0,
    ensures
        r.0.wf(),
        r.1.wf(),
        r.2.wf(),
        r.3.wf(),
        ted(r.1, r.3) == substrate_ted(*query, *cand),
        *query == *cand ==> r.0.first_traversal@ == r.2.first_traversal@ && r.0.second_traversal@
            == r.2.second_traversal@,
{
    let mut dict = LabelDict::new();
    let (q_sed, q_td) = query.expand(&mut dict);
    let ghost d1 = dict.entries();
    let (c_sed, c_td) = cand.expand(&mut dict);
    proof {
        let d = dict.entries();
        assert forall|v: int| 0 <= v < query.n() implies #[trigger] q_td.lbl(v) == d[query.labels@[v]@] by {
            assert(d1.dom().contains(query.labels@[v]@));
            assert(q_td.postl_to_label_id@[v] == d1[query.labels@[v]@]);
            assert(d.dom().contains(query.labels@[v]@));
        }
        assert forall|v: int, w: int|
            0 <= v < query.n() && 0 <= w < cand.n() implies (#[trigger] q_td.lbl(v) == #[trigger] c_td.lbl(w)) == (
            query.labels@[v]@ == cand.labels@[w]@) by {
            let l1 = query.labels@[v]@;
            let l2 = cand.labels@[w]@;
            assert(c_td.postl_to_label_id@[w] == d[l2]);
            assert(d.dom().contains(l1) && d.dom().contains(l2));
            assert(q_td.lbl(v) == d[l1]);
        }
        lemma_fdist_substrate(q_td, c_td, *query, *cand, 0, query.n(), 0, cand.n());
        if *query == *cand {
            let t1 = choose|t: TreeArena| t.is_tree() && query.encodes(t) && q_sed.indexes(t, d1) && q_td.indexes(t, d1);
            let t2 = choose|t: TreeArena| t.is_tree() && cand.encodes(t) && c_sed.indexes(t, d) && c_td.indexes(t, d);
            substrate_determines_tree(*query, t1, t2);
            let n = t1.n();
            assert forall|y: int| 0 <= y < n implies t1.depth(y) == t2.depth(y) && #[trigger] d1[t1.label(y)] == d[t2.label(y)] by {
                lemma_depth_agree(t1, t2, y);
                lemma_post_index_range(t1, y);
                assert(query.labels@[t1.post_index(y)]@ == t1.label(y));
                assert(d1.dom().contains(query.labels@[t1.post_index(y)]@));
            }
            assert forall|y: int| 0 <= y < n implies #[trigger] q_sed.first_traversal@[y] == c_sed.first_traversal@[y] by {
                lemma_depth_agree(t1, t2, y);
            }
            assert forall|x: int| 0 <= x < n implies #[trigger] q_sed.second_traversal@[x] == c_sed.second_traversal@[x] by {
                let y = n - 1 - x;
                lemma_depth_agree(t1, t2, y);
                assert(q_sed.second_traversal@[n - 1 - y] == q_sed.second_traversal@[x]);
            }
            assert(q_sed.first_traversal@ =~= c_sed.first_traversal@);
            assert(q_sed.second_traversal@ =~= c_sed.second_traversal@);
        }
    }
    (q_sed, q_td, c_sed, c_td)
}

/// Exact tree edit distance between the trees two substrates encode.
pub fn tree_edit_distance(query: &UnifiedTreeIndex, cand: &UnifiedTreeIndex) -> (r: i32)
    requires
        query.wf(),
        cand.wf(),
    ensures
        r as int == substrate_ted(*query, *cand),
{
    if query.tree_size == 0 || cand.tree_size == 0 {
        let bigger = if query.tree_size >= cand.tree_size { query.tree_size } else { cand.tree_size };
        return bigger as i32;
    }
    let (_q_sed, q_td, _c_sed, c_td) = expand_pair(query, cand);
    tree_distance(&q_td, &c_td)
}

/// `x` capped at `k + 1`.
pub open spec fn capped(x: int, k: int) -> int {
    if x <= k {
        x
    } else {
        k + 1
    }
}

/// What every pipeline returns: `k + 1` for a negative bound or when the
/// tree sizes differ by more than `k`; the larger size when a tree is empty;
/// otherwise either `k + 1` or the tree edit distance capped at `k + 1`
/// (which of the two depends on the first stage; `filtered_result` pins it).
pub open spec fn pipeline_result(query: UnifiedTreeIndex, cand: UnifiedTreeIndex, k: int, r: int) -> bool {
    let n1 = query.n();
    let n2 = cand.n();
    if k < 0 || n1 - n2 > k || n2 - n1 > k {
        r == k + 1
    } else if n1 == 0 || n2 == 0 {
        r == if n1 >= n2 { n1 } else { n2 }
    } else {
        r == k + 1 || r == capped(substrate_ted(query, cand), k)
    }
}

/// What a pipeline returns when its first stage filters a pair out exactly
/// when `filtered` holds: `k + 1` for a negative bound or when the tree sizes
/// differ by more than `k`; the larger size when a tree is empty; otherwise
/// `k + 1` for a filtered pair, else the tree edit distance capped at
/// `k + 1`.
pub open spec fn filtered_result(query: UnifiedTreeIndex, cand: UnifiedTreeIndex, k: int, filtered: bool, r: int) -> bool {
    let n1 = query.n();
    let n2 = cand.n();
    if k < 0 || n1 - n2 > k || n2 - n1 > k {
        r == k + 1
    } else if n1 == 0 || n2 == 0 {
        r == if n1 >= n2 { n1 } else { n2 }
    } else if filtered {
        r == k + 1
    } else {
        r == capped(substrate_ted(query, cand), k)
    }
}

/// The size gates shared by the pipelines: `Some` result when they decide.
pub(crate) fn size_gates(query: &UnifiedTreeIndex, cand: &UnifiedTreeIndex, k: i32) -> (r: Option<i32>)
    requires
        query.wf(),
        cand.wf(),
        k < i32::MAX,
    ensures
        r matches Some(x) ==> pipeline_result(*query, *cand, k as int, x as int),
        r is Some ==> k < 0 || query.n() - cand.n() > k || cand.n() - query.n() > k || query.n() == 0 || cand.n() == 0,
        r is None ==> 0 <= k && !(query.n() - cand.n() > k || cand.n() - query.n() > k) && query.n() > 0 && cand.n() > 0,
{
    if k < 0 {
        return Some(k + 1);
    }
    let k_usize = k as usize;
    let diff = if query.tree_size >= cand.tree_size {
        query.tree_size - cand.tree_size
    } else {
        cand.tree_size - query.tree_size
    };
    if diff > k_usize {
        return Some(k + 1);
    }
    if query.tree_size == 0 || cand.tree_size == 0 {
        let bigger = if query.tree_size >= cand.tree_size { query.tree_size } else { cand.tree_size };
        return Some(bigger as i32);
    }
    None
}

/// SED-Struct lower bound, then the bounded tree edit distance.
pub fn sed_topdiff_within(query: &UnifiedTreeIndex, cand: &UnifiedTreeIndex, k: i32) -> (r: i32)
    requires
        query.wf(),
        cand.wf(),
        k < i32::MAX,
    ensures
        pipeline_result(*query, *cand, k as int, r as int),
        *query == *cand ==> r == (if k < 0 { k + 1 } else { 0 }),
{
    if let Some(x) = size_gates(query, cand, k) {
        return x;
    }
    let k_usize = k as usize;
    let (q_sed, q_td, c_sed, c_td) = expand_pair(query, cand);
    if bounded_sed_struct_int(&q_sed, &c_sed, k_usize) > k_usize {
        return k + 1;
    }
    proof {
        substrate_ted_identity_and_range(*query, *cand);
    }
    ted_k(&q_td, &c_td, k)
}

impl UnifiedTreeIndex {
    /// The preorder and postorder label sequences of the encoded tree.
    pub fn sed_plain_build_sed_index(&self) -> (r: SEDIndex)
        requires
            self.wf(),
        ensures
            r.wf(),
            self.n() == 0 ==> r.tree_size == 0 && r.preorder@.len() == 0 && r.postorder@.len() == 0,
            self.n() > 0 ==> exists|t: TreeArena| t.is_tree() && self.encodes(t) && r.indexes(t),
    {
        if self.tree_size == 0 {
            return SEDIndex { preorder: Vec::new(), postorder: Vec::new(), tree_size: 0 };
        }
        let t = self.rebuild_arena();
        SEDIndex::index_tree(&t)
    }

    /// Structural-filter lower bound between the encoded trees: `k + 1` when
    /// the sizes differ by more than `k`, else the structural filter of the
    /// two rebuilt trees.
    pub fn structural_stage1_lb(&self, cand: &UnifiedTreeIndex, k: i32) -> (r: i32)
        requires
            self.wf(),
            cand.wf(),
            self.n() > 0,
            cand.n() > 0,
            0 <= k < i32::MAX,
        ensures
            self.n() - cand.n() > k || cand.n() - self.n() > k ==> r == k + 1,
            !(self.n() - cand.n() > k || cand.n() - self.n() > k) ==> exists|
                t1: TreeArena,
                t2: TreeArena,
                s1: StructuralFilterTuple,
                s2: StructuralFilterTuple,
            |
                #![trigger self.encodes(t1), cand.encodes(t2), s1.indexes(t1), s2.indexes(t2)]
                {
                    &&& t1.is_tree()
                    &&& t2.is_tree()
                    &&& self.encodes(t1)
                    &&& cand.encodes(t2)
                    &&& s1.indexes(t1)
                    &&& s2.indexes(t2)
                    &&& s1.wf()
                    &&& s2.wf()
                    &&& r == (if s1.0 >= s2.0 { s1.0 as int } else { s2.0 as int }) - overlap(
                        s1.1@,
                        s2.1@,
                        k as int,
                        s1.1@.len() as int,
                    )
                },
    {
        let diff = if self.tree_size >= cand.tree_size {
            self.tree_size - cand.tree_size
        } else {
            cand.tree_size - self.tree_size
        };
        if diff > k as usize {
            return k + 1;
        }
        let t1 = self.rebuild_arena();
        let t2 = cand.rebuild_arena();
        let mut lsc = LabelSetConverter::default();
        let trees = vec![t1, t2];
        let tuples = lsc.create(trees.as_slice());
        proof {
            assert(tuples@[0].indexes(trees@[0]) && tuples@[0].wf());
            assert(tuples@[1].indexes(trees@[1]) && tuples@[1].wf());
        }
        let r = structural_lb(&tuples[0], &tuples[1], k);
        proof {
            assert(self.encodes(trees@[0]) && cand.encodes(trees@[1]));
            assert(tuples@[0].0 == self.n() && tuples@[1].0 == cand.n());
        }
        r
    }
}

/// Plain SED lower bound over the label traversals, then the bounded tree
/// edit distance.  The bound is sound, so the result is the tree edit
/// distance capped at `k + 1`.
pub fn sed_plain_topdiff_within(query: &UnifiedTreeIndex, cand: &UnifiedTreeIndex, k: i32) -> (r: i32)
    requires
        query.wf(),
        cand.wf(),
        k < i32::MAX,
    ensures
        pipeline_result(*query, *cand, k as int, r as int),
        exists|i1: SEDIndex, i2: SEDIndex|
            #![trigger i1.wf(), i2.wf()]
            {
                &&& i1.wf()
                &&& i2.wf()
                &&& query.n() > 0 ==> exists|t1: TreeArena| t1.is_tree() && query.encodes(t1) && i1.indexes(t1)
                &&& cand.n() > 0 ==> exists|t2: TreeArena| t2.is_tree() && cand.encodes(t2) && i2.indexes(t2)
                &&& filtered_result(
                    *query,
                    *cand,
                    k as int,
                    max_int(edit_distance(i1.preorder@, i2.preorder@), edit_distance(i1.postorder@, i2.postorder@)) > k,
                    r as int,
                )
            },
        filtered_result(*query, *cand, k as int, false, r as int),
{
    let q_idx = query.sed_plain_build_sed_index();
    let c_idx = cand.sed_plain_build_sed_index();
    if let Some(x) = size_gates(query, cand, k) {
        proof {
            assert(q_idx.wf() && c_idx.wf());
        }
        return x;
    }
    let k_usize = k as usize;
    if bounded_sed(&q_idx, &c_idx, k_usize) > k_usize {
        proof {
            assert(q_idx.wf() && c_idx.wf());
            let t1 = choose|t1: TreeArena| t1.is_tree() && query.encodes(t1) && q_idx.indexes(t1);
            let t2 = choose|t2: TreeArena| t2.is_tree() && cand.encodes(t2) && c_idx.indexes(t2);
            traversal_ed_within_ted(*query, *cand, t1, t2, q_idx, c_idx);
        }
        return k + 1;
    }
    let (_q_sed, q_td, _c_sed, c_td) = expand_pair(query, cand);
    let r = ted_k(&q_td, &c_td, k);
    proof {
        assert(q_idx.wf() && c_idx.wf());
    }
    r
}

/// Structural-filter lower bound between two trees: `lb + 1` when their
/// sizes differ by more than `lb`, else the structural filter of their label
/// sets built with one converter.
#[verifier::spinoff_prover]
#[verifier::rlimit(40)]
pub fn tree_lb_structural_filter(t1: &TreeArena, t2: &TreeArena, lb: i32) -> (r: i32)
    requires
        t1.is_tree(),
        t2.is_tree(),
        lb < i32::MAX,
    ensures
        t1.n() - t2.n() > lb || t2.n() - t1.n() > lb ==> r == lb + 1,
        !(t1.n() - t2.n() > lb || t2.n() - t1.n() > lb) ==> exists|s1: StructuralFilterTuple, s2: StructuralFilterTuple|
            s1.indexes(*t1) && s2.indexes(*t2) && r == (if t1.n() >= t2.n() { t1.n() } else { t2.n() }) - overlap(
                s1.1@,
                s2.1@,
                lb as int,
                s1.1@.len() as int,
            ),
{
    let diff = if t1.count() >= t2.count() { t1.count() - t2.count() } else { t2.count() - t1.count() };
    if diff as i64 > lb as i64 {
        return lb + 1;
    }
    let lsc = LabelSetConverter::default();
    let s1 = lsc.create_record(t1);
    let s2 = lsc.create_record(t2);
    structural_lb(&s1, &s2, lb)
}

/// Structural-filter lower bound, then the bounded tree edit distance.
pub fn structural_topdiff_within(query: &UnifiedTreeIndex, cand: &UnifiedTreeIndex, k: i32) -> (r: i32)
    requires
        query.wf(),
        cand.wf(),
        k < i32::MAX,
    ensures
        pipeline_result(*query, *cand, k as int, r as int),
        !(k < 0 || query.n() - cand.n() > k || cand.n() - query.n() > k || query.n() == 0 || cand.n() == 0) ==> exists|
            t1: TreeArena,
            t2: TreeArena,
            s1: StructuralFilterTuple,
            s2: StructuralFilterTuple,
        |
            #![trigger query.encodes(t1), cand.encodes(t2), s1.indexes(t1), s2.indexes(t2)]
            {
                &&& t1.is_tree()
                &&& t2.is_tree()
                &&& query.encodes(t1)
                &&& cand.encodes(t2)
                &&& s1.indexes(t1)
                &&& s2.indexes(t2)
                &&& s1.wf()
                &&& s2.wf()
                &&& filtered_result(
                    *query,
                    *cand,
                    k as int,
                    (if s1.0 >= s2.0 { s1.0 as int } else { s2.0 as int }) - overlap(s1.1@, s2.1@, k as int, s1.1@.len() as int) > k,
                    r as int,
                )
            },
{
    if let Some(x) = size_gates(query, cand, k) {
        return x;
    }
    let lb = query.structural_stage1_lb(cand, k);
    if lb > k {
        return k + 1;
    }
    let (_q_sed, q_td, _c_sed, c_td) = expand_pair(query, cand);
    ted_k(&q_td, &c_td, k)
}

} // verus!
