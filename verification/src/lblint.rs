//! Label-intersection lower bound straight from two postorder substrates,
//! and the pipeline that uses it before the bounded tree edit distance.

use crate::edit_distance::Symbol;
use crate::collections::{counts_empty, counts_get, counts_insert, label_count_entries, LabelCounts};
use crate::pipelines::{capped, expand_pair, filtered_result, pipeline_result, sfdist, size_gates, substrate_ted};
use crate::topdiff::clamp;
use crate::sed::texts;
use crate::topdiff::ted_k;
use crate::unified::UnifiedTreeIndex;
use vstd::multiset::Multiset;
use vstd::prelude::*;

verus! {

/// The multiset of the label texts of a substrate.
pub open spec fn label_multiset(s: UnifiedTreeIndex) -> Multiset<Seq<char>> {
    texts(s.labels@).to_multiset()
}

/// Label-intersection lower bound: the larger size minus the number of nodes
/// that can be paired by label (the size of the multiset intersection).
pub open spec fn lblint_lb(a: UnifiedTreeIndex, b: UnifiedTreeIndex) -> int {
    (if a.n() >= b.n() { a.n() } else { b.n() }) - label_multiset(a).intersection_with(label_multiset(b)).len()
}

/// Intersecting with one more element grows the intersection by one exactly
/// when the element is still unmatched.
proof fn lemma_intersection_insert(a: Multiset<Seq<char>>, b: Multiset<Seq<char>>, x: Seq<char>)
    ensures
        a.intersection_with(b.insert(x)).len() == a.intersection_with(b).len() + (if a.count(x) > b.count(x) {
            1int
        } else {
            0
        }),
{
    broadcast use vstd::multiset::group_multiset_axioms;
    broadcast use vstd::multiset::lemma_intersection_count;

    if a.count(x) > b.count(x) {
        assert(a.intersection_with(b.insert(x)) =~= a.intersection_with(b).insert(x));
        vstd::multiset::lemma_insert_len(a.intersection_with(b), x);
    } else {
        assert(a.intersection_with(b.insert(x)) =~= a.intersection_with(b));
    }
}

proof fn lemma_intersection_commutes(a: Multiset<Seq<char>>, b: Multiset<Seq<char>>)
    ensures
        a.intersection_with(b) == b.intersection_with(a),
{
    broadcast use vstd::multiset::lemma_intersection_count;

    assert(a.intersection_with(b) =~= b.intersection_with(a));
}

/// Law: the label-intersection bound does not depend on the order of the two
/// substrates.
pub proof fn lblint_lb_symmetric(a: UnifiedTreeIndex, b: UnifiedTreeIndex)
    ensures
        lblint_lb(a, b) == lblint_lb(b, a),
{
    lemma_intersection_commutes(label_multiset(a), label_multiset(b));
}

/// The multiset of the label texts of the postorder ids `[a, b)` of `s`.
pub open spec fn forest_labels(s: UnifiedTreeIndex, a: int, b: int) -> Multiset<Seq<char>> {
    texts(s.labels@).subrange(a, b).to_multiset()
}

/// How many nodes of the forest `[a, b)` of `s1` and `[c, d)` of `s2` can be
/// paired by label.
pub open spec fn common_labels(s1: UnifiedTreeIndex, s2: UnifiedTreeIndex, a: int, b: int, c: int, d: int) -> nat {
    forest_labels(s1, a, b).intersection_with(forest_labels(s2, c, d)).len()
}

proof fn lemma_sub_len(m1: Multiset<Seq<char>>, m2: Multiset<Seq<char>>)
    requires
        m1.subset_of(m2),
    ensures
        m1.len() <= m2.len(),
{
    broadcast use vstd::multiset::group_multiset_axioms;

    assert(m2.sub(m1).len() == m2.len() - m1.len());
}

/// A forest's labels are those of its two halves.
proof fn lemma_forest_split(s: UnifiedTreeIndex, a: int, m: int, b: int)
    requires
        0 <= a <= m <= b <= s.labels@.len(),
    ensures
        forest_labels(s, a, b) == forest_labels(s, a, m).add(forest_labels(s, m, b)),
{
    let t = texts(s.labels@);
    assert(t.subrange(a, b) =~= t.subrange(a, m) + t.subrange(m, b));
    vstd::seq_lib::lemma_multiset_commutative(t.subrange(a, m), t.subrange(m, b));
}

/// A forest ending at `v + 1` has the labels of the forest ending at `v` and
/// the label of `v`.
proof fn lemma_forest_last(s: UnifiedTreeIndex, a: int, v: int)
    requires
        0 <= a <= v < s.labels@.len(),
    ensures
        forest_labels(s, a, v + 1) == forest_labels(s, a, v).insert(s.labels@[v]@),
{
    let t = texts(s.labels@);
    assert(t.subrange(a, v + 1) =~= t.subrange(a, v).push(s.labels@[v]@));
    vstd::seq_lib::to_multiset_build(t.subrange(a, v), s.labels@[v]@);
}

/// Intersections grow with their operands.
proof fn lemma_inter_mono(a1: Multiset<Seq<char>>, a2: Multiset<Seq<char>>, b1: Multiset<Seq<char>>, b2: Multiset<Seq<char>>)
    requires
        a1.subset_of(a2),
        b1.subset_of(b2),
    ensures
        a1.intersection_with(b1).len() <= a2.intersection_with(b2).len(),
{
    broadcast use vstd::multiset::lemma_intersection_count;

    lemma_sub_len(a1.intersection_with(b1), a2.intersection_with(b2));
}

/// The pairs found in two parts separately are pairs of the whole.
proof fn lemma_inter_superadd(a1: Multiset<Seq<char>>, a2: Multiset<Seq<char>>, b1: Multiset<Seq<char>>, b2: Multiset<Seq<char>>)
    ensures
        a1.intersection_with(b1).len() + a2.intersection_with(b2).len() <= a1.add(a2).intersection_with(b1.add(b2)).len(),
{
    broadcast use vstd::multiset::group_multiset_axioms;
    broadcast use vstd::multiset::lemma_intersection_count;

    let lhs = a1.intersection_with(b1).add(a2.intersection_with(b2));
    lemma_sub_len(lhs, a1.add(a2).intersection_with(b1.add(b2)));
}

/// One more equal label on each side pairs up.
proof fn lemma_inter_same_last(a: Multiset<Seq<char>>, b: Multiset<Seq<char>>, x: Seq<char>)
    ensures
        a.insert(x).intersection_with(b.insert(x)).len() == a.intersection_with(b).len() + 1,
{
    broadcast use vstd::multiset::group_multiset_axioms;
    broadcast use vstd::multiset::lemma_intersection_count;

    assert(a.insert(x).intersection_with(b.insert(x)) =~= a.intersection_with(b).insert(x));
    vstd::multiset::lemma_insert_len(a.intersection_with(b), x);
}

/// Every edit script between two forests pays at least for the nodes of the
/// larger one that cannot be paired by label.
proof fn lemma_sfdist_lblint(s1: UnifiedTreeIndex, s2: UnifiedTreeIndex, a: int, b: int, c: int, d: int)
    requires
        0 <= a <= b <= s1.labels@.len(),
        0 <= c <= d <= s2.labels@.len(),
    ensures
        sfdist(s1, s2, a, b, c, d) >= (if b - a >= d - c { b - a } else { d - c }) - common_labels(s1, s2, a, b, c, d),
    decreases (b - a) + (d - c),
{
    if b > a && d > c {
        let v = b - 1;
        let w = d - 1;
        let lv = clamp(s1.lml(v), a, v);
        let lw = clamp(s2.lml(w), c, w);
        let whole1 = forest_labels(s1, a, b);
        let whole2 = forest_labels(s2, c, d);
        lemma_forest_split(s1, a, v, b);
        lemma_forest_split(s2, c, w, d);
        lemma_sfdist_lblint(s1, s2, a, v, c, d);
        lemma_sfdist_lblint(s1, s2, a, b, c, w);
        assert(forest_labels(s1, a, v).subset_of(whole1)) by {
            broadcast use vstd::multiset::group_multiset_axioms;
        }
        assert(forest_labels(s2, c, w).subset_of(whole2)) by {
            broadcast use vstd::multiset::group_multiset_axioms;
        }
        assert(whole1.subset_of(whole1));
        assert(whole2.subset_of(whole2));
        lemma_inter_mono(forest_labels(s1, a, v), whole1, whole2, whole2);
        lemma_inter_mono(whole1, whole1, forest_labels(s2, c, w), whole2);
        if lv == a && lw == c {
            lemma_sfdist_lblint(s1, s2, a, v, c, w);
            if s1.labels@[v]@ == s2.labels@[w]@ {
                lemma_forest_last(s1, a, v);
                lemma_forest_last(s2, c, w);
                lemma_inter_same_last(forest_labels(s1, a, v), forest_labels(s2, c, w), s1.labels@[v]@);
            } else {
                lemma_inter_mono(forest_labels(s1, a, v), whole1, forest_labels(s2, c, w), whole2);
            }
        } else {
            lemma_sfdist_lblint(s1, s2, a, lv, c, lw);
            lemma_sfdist_lblint(s1, s2, lv, b, lw, d);
            lemma_forest_split(s1, a, lv, b);
            lemma_forest_split(s2, c, lw, d);
            lemma_inter_superadd(forest_labels(s1, a, lv), forest_labels(s1, lv, b), forest_labels(s2, c, lw), forest_labels(s2, lw, d));
        }
    }
}

/// Law: the label-intersection bound never exceeds the tree edit distance of
/// the two trees, so a pair it filters out is farther apart than the bound.
pub proof fn lblint_lb_is_sound(s1: UnifiedTreeIndex, s2: UnifiedTreeIndex)
    requires
        s1.wf(),
        s2.wf(),
    ensures
        lblint_lb(s1, s2) <= substrate_ted(s1, s2),
{
    lemma_sfdist_lblint(s1, s2, 0, s1.n(), 0, s2.n());
    assert(texts(s1.labels@).subrange(0, s1.n()) =~= texts(s1.labels@));
    assert(texts(s2.labels@).subrange(0, s2.n()) =~= texts(s2.labels@));
}

/// The prefix multisets of a label sequence.
pub open spec fn prefix_multiset(v: Seq<String>, j: int) -> Multiset<Seq<char>> {
    texts(v).take(j).to_multiset()
}

proof fn lemma_prefix_multiset_step(v: Seq<String>, j: int)
    requires
        0 <= j < v.len(),
    ensures
        prefix_multiset(v, j + 1) == prefix_multiset(v, j).insert(v[j]@),
{
    assert(texts(v).take(j + 1) =~= texts(v).take(j).push(v[j]@));
    vstd::seq_lib::to_multiset_build(texts(v).take(j), v[j]@);
}

/// Growing the second multiset by `e - j` elements grows the intersection by
/// at most `e - j`.
proof fn lemma_intersection_growth(a: Multiset<Seq<char>>, v: Seq<String>, j: int, e: int)
    requires
        0 <= j <= e <= v.len(),
    ensures
        a.intersection_with(prefix_multiset(v, e)).len() <= a.intersection_with(prefix_multiset(v, j)).len() + (e - j),
    decreases e - j,
{
    if e > j {
        lemma_intersection_growth(a, v, j, e - 1);
        lemma_prefix_multiset_step(v, e - 1);
        lemma_intersection_insert(a, prefix_multiset(v, e - 1), v[e - 1]@);
    }
}

/// The count a table holds for label `l` (0 when absent).
pub open spec fn label_count(m: Map<Seq<char>, i32>, l: Seq<char>) -> int {
    if m.dom().contains(l) {
        m[l] as int
    } else {
        0
    }
}

/// Counts each label of `labels`.
fn count_labels(labels: &Vec<String>) -> (r: LabelCounts)
    requires
        labels@.len() < i32::MAX,
    ensures
        forall|l: Seq<char>|
            #[trigger] label_count(label_count_entries(r), l) == prefix_multiset(labels@, labels@.len() as int).count(l),
{
    let mut counts = counts_empty();
    let mut i: usize = 0;
    proof {
        assert forall|l: Seq<char>| #[trigger] prefix_multiset(labels@, 0).count(l) == 0 by {
            vstd::seq_lib::to_multiset_contains(texts(labels@).take(0), l);
        }
    }
    while i < labels.len()
        invariant
            i <= labels@.len(),
            labels@.len() < i32::MAX,
            forall|l: Seq<char>| #[trigger] label_count(label_count_entries(counts), l) == prefix_multiset(labels@, i as int).count(l),
            forall|l: Seq<char>| #[trigger] prefix_multiset(labels@, i as int).count(l) <= i,
        decreases labels@.len() - i,
    {
        let lbl = &labels[i];
        let ghost before = label_count_entries(counts);
        let ghost x = lbl@;
        proof {
            lemma_prefix_multiset_step(labels@, i as int);
            broadcast use vstd::multiset::group_multiset_axioms;
        }
        let c = match counts_get(&counts, lbl) {
            Some(c) => c,
            None => 0,
        };
        proof {
            assert(c == label_count(before, x));
            assert(prefix_multiset(labels@, i as int).count(x) <= i);
        }
        counts_insert(&mut counts, lbl.clone(), c + 1);
        proof {
            broadcast use vstd::multiset::group_multiset_axioms;
            let after = label_count_entries(counts);
            assert forall|l: Seq<char>| #[trigger] label_count(after, l) == prefix_multiset(labels@, i + 1).count(l) by {
                assert(label_count(before, l) == prefix_multiset(labels@, i as int).count(l));
                assert(prefix_multiset(labels@, i + 1) == prefix_multiset(labels@, i as int).insert(x));
                if l != x {
                    assert(after.dom().contains(l) == before.dom().contains(l));
                } else {
                    assert(after[x] == c + 1);
                }
            }
            assert forall|l: Seq<char>| #[trigger] prefix_multiset(labels@, i + 1).count(l) <= i + 1 by {
                assert(prefix_multiset(labels@, i as int).count(l) <= i);
            }
        }
        i = i + 1;
    }
    proof {
        assert(texts(labels@).take(labels@.len() as int) =~= texts(labels@));
    }
    counts
}

impl UnifiedTreeIndex {
    /// Bounded label-intersection lower bound: `k + 1` when the sizes differ
    /// by more than `k` or the bound exceeds `k`, else the bound.  The labels
    /// of the smaller substrate are counted; those of the larger one are
    /// matched against the counts, stopping once the bound is known to
    /// exceed `k`.
    pub fn lblint_bounded_lb(&self, other: &UnifiedTreeIndex, k: i32) -> (r: i32)
        requires
            self.wf(),
            other.wf(),
            k < i32::MAX,
        ensures
            self.n() - other.n() > k || other.n() - self.n() > k ==> r == k + 1,
            r == capped(lblint_lb(*self, *other), k as int) || (self.n() - other.n() > k || other.n() - self.n() > k),
    {
        let bigger = (if self.tree_size >= other.tree_size { self.tree_size } else { other.tree_size }) as i32;
        let size_diff = (if self.tree_size >= other.tree_size {
            self.tree_size - other.tree_size
        } else {
            other.tree_size - self.tree_size
        }) as i32;
        if size_diff > k {
            return k + 1;
        }
        let (small, large) = if self.labels.len() <= other.labels.len() {
            (self, other)
        } else {
            (other, self)
        };
        let ghost a = label_multiset(*small);
        let ghost v = large.labels@;
        let mut counts = count_labels(&small.labels);
        proof {
            assert(texts(small.labels@).take(small.labels@.len() as int) =~= texts(small.labels@));
            assert forall|l: Seq<char>| #[trigger] prefix_multiset(v, 0).count(l) == 0 by {
                vstd::seq_lib::to_multiset_contains(texts(v).take(0), l);
            }
            assert(a.intersection_with(prefix_multiset(v, 0)) =~= Multiset::empty()) by {
                broadcast use vstd::multiset::lemma_intersection_count;
                broadcast use vstd::multiset::group_multiset_axioms;
            }
        }
        let n = large.labels.len();
        let mut intersection: i32 = 0;
        let mut remaining: i32 = n as i32;
        let mut j: usize = 0;
        while j < n
            invariant
                n == v.len(),
                v == large.labels@,
                a == label_multiset(*small),
                self.labels@.len() <= other.labels@.len() ==> *small == *self && *large == *other,
                !(self.labels@.len() <= other.labels@.len()) ==> *small == *other && *large == *self,
                n <= crate::edit_distance::MAX_SEQ_LEN,
                j <= n,
                remaining == n - j,
                0 <= bigger <= crate::edit_distance::MAX_SEQ_LEN,
                bigger == (if self.n() >= other.n() { self.n() } else { other.n() }),
                bigger - intersection - remaining <= k,
                forall|l: Seq<char>|
                    #[trigger] label_count(label_count_entries(counts), l) == a.count(l) - vstd::math::min(
                        a.count(l) as int,
                        prefix_multiset(v, j as int).count(l) as int,
                    ),
                intersection == a.intersection_with(prefix_multiset(v, j as int)).len(),
                0 <= intersection <= j,
            decreases n - j,
        {
            let lbl = &large.labels[j];
            let ghost x = lbl@;
            let ghost bj = prefix_multiset(v, j as int);
            proof {
                lemma_prefix_multiset_step(v, j as int);
                lemma_intersection_insert(a, bj, x);
            }
            remaining = remaining - 1;
            let ghost before = label_count_entries(counts);
            match counts_get(&counts, lbl) {
                Some(c) => {
                    if c > 0 {
                        counts_insert(&mut counts, lbl.clone(), c - 1);
                        intersection = intersection + 1;
                        proof {
                            let after = label_count_entries(counts);
                            assert(c == label_count(before, x));
                            assert forall|l: Seq<char>|
                                #[trigger] label_count(after, l) == a.count(l) - vstd::math::min(
                                    a.count(l) as int,
                                    prefix_multiset(v, j + 1).count(l) as int,
                                ) by {
                                broadcast use vstd::multiset::group_multiset_axioms;
                                assert(label_count(before, l) == a.count(l) - vstd::math::min(a.count(l) as int, bj.count(l) as int));
                                if l != x {
                                    assert(after.dom().contains(l) == before.dom().contains(l));
                                }
                            }
                        }
                    } else {
                        proof {
                            assert(c == label_count(before, x));
                            assert forall|l: Seq<char>|
                                #[trigger] label_count(label_count_entries(counts), l) == a.count(l) - vstd::math::min(
                                    a.count(l) as int,
                                    prefix_multiset(v, j + 1).count(l) as int,
                                ) by {
                                broadcast use vstd::multiset::group_multiset_axioms;
                                assert(label_count(before, l) == a.count(l) - vstd::math::min(a.count(l) as int, bj.count(l) as int));
                            }
                        }
                    }
                },
                None => {
                    proof {
                        assert(label_count(before, x) == 0);
                        assert forall|l: Seq<char>|
                            #[trigger] label_count(label_count_entries(counts), l) == a.count(l) - vstd::math::min(
                                a.count(l) as int,
                                prefix_multiset(v, j + 1).count(l) as int,
                            ) by {
                            broadcast use vstd::multiset::group_multiset_axioms;
                            assert(label_count(before, l) == a.count(l) - vstd::math::min(a.count(l) as int, bj.count(l) as int));
                        }
                    }
                },
            }
            j = j + 1;
            if bigger - intersection - remaining > k {
                proof {
                    lemma_intersection_growth(a, v, j as int, n as int);
                    assert(texts(v).take(n as int) =~= texts(v));
                    assert(prefix_multiset(v, n as int) == label_multiset(*large));
                    lemma_intersection_commutes(label_multiset(*self), label_multiset(*other));
                    if self.labels@.len() <= other.labels@.len() {
                        assert(*small == *self && *large == *other);
                    } else {
                        assert(*small == *other && *large == *self);
                    }
                    assert(a.intersection_with(label_multiset(*large)) == label_multiset(*self).intersection_with(
                        label_multiset(*other),
                    ));
                    assert(lblint_lb(*self, *other) > k);
                }
                return k + 1;
            }
        }
        proof {
            assert(texts(v).take(n as int) =~= texts(v));
            assert(prefix_multiset(v, n as int) == label_multiset(*large));
            lemma_intersection_commutes(label_multiset(*self), label_multiset(*other));
            if self.labels@.len() <= other.labels@.len() {
                assert(*small == *self && *large == *other);
            } else {
                assert(*small == *other && *large == *self);
            }
        }
        bigger - intersection
    }
}

/// Label-intersection lower bound, then the bounded tree edit distance.  The
/// bound is sound, so the result is the tree edit distance capped at `k + 1`.
pub fn lblint_topdiff_within(query: &UnifiedTreeIndex, cand: &UnifiedTreeIndex, k: i32) -> (r: i32)
    requires
        query.wf(),
        cand.wf(),
        k < i32::MAX,
    ensures
        pipeline_result(*query, *cand, k as int, r as int),
        filtered_result(*query, *cand, k as int, lblint_lb(*query, *cand) > k, r as int),
        filtered_result(*query, *cand, k as int, false, r as int),
{
    if let Some(x) = size_gates(query, cand, k) {
        return x;
    }
    if query.lblint_bounded_lb(cand, k) > k {
        proof {
            lblint_lb_is_sound(*query, *cand);
        }
        return k + 1;
    }
    let (_q_sed, q_td, _c_sed, c_td) = expand_pair(query, cand);
    ted_k(&q_td, &c_td, k)
}

} // verus!
