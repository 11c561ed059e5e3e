//! The string edit distances between the preorder and between the postorder
//! label sequences of two trees never exceed their tree edit distance, which
//! makes the plain traversal-string distance a sound lower bound.

use crate::edit_distance::{edit_distance, lemma_ed_concat, lemma_ed_insert_mid, lemma_ed_texts, lemma_ed_unfold, lemma_edit_distance_symmetric};
use crate::sed::{texts, SEDIndex};
use crate::traversal::{lemma_after_post, lemma_desc_post, lemma_post_block, lemma_post_index_range, lemma_post_onto};
use crate::tree::TreeArena;
use crate::pipelines::{sfdist, substrate_ted};
use crate::topdiff::clamp;
use crate::unified::UnifiedTreeIndex;
use vstd::prelude::*;

verus! {

/// The postorder ids `[a, b)` of `s` form a run of whole subtrees: each node
/// in it has its leftmost leaf in it.
pub open spec fn is_forest(s: UnifiedTreeIndex, a: int, b: int) -> bool {
    &&& 0 <= a <= b <= s.n()
    &&& forall|u: int| a <= u < b ==> a <= #[trigger] s.lml(u)
}

/// Labels of the forest `[a, b)` of `s` in preorder: the forest before the
/// last tree, the last root, then the forest of its children.
pub open spec fn preorder_of(s: UnifiedTreeIndex, a: int, b: int) -> Seq<String>
    decreases (if b > a { b - a } else { 0 }),
{
    if b <= a {
        Seq::empty()
    } else {
        let v = b - 1;
        let lv = clamp(s.lml(v), a, v);
        preorder_of(s, a, lv) + seq![s.labels@[v]] + preorder_of(s, lv, v)
    }
}

proof fn lemma_preorder_len(s: UnifiedTreeIndex, a: int, b: int)
    requires
        a <= b,
    ensures
        preorder_of(s, a, b).len() == b - a,
    decreases b - a,
{
    if b > a {
        let v = b - 1;
        let lv = clamp(s.lml(v), a, v);
        lemma_preorder_len(s, a, lv);
        lemma_preorder_len(s, lv, v);
    }
}

/// Postorder ids of the forest `[a, b)` of `s`, in preorder.
pub open spec fn preorder_ids(s: UnifiedTreeIndex, a: int, b: int) -> Seq<int>
    decreases (if b > a { b - a } else { 0 }),
{
    if b <= a {
        Seq::empty()
    } else {
        let v = b - 1;
        let lv = clamp(s.lml(v), a, v);
        preorder_ids(s, a, lv) + seq![v] + preorder_ids(s, lv, v)
    }
}

/// The preorder labels are the labels at the preorder ids.
proof fn lemma_preorder_ids(s: UnifiedTreeIndex, a: int, b: int)
    requires
        a <= b,
    ensures
        preorder_ids(s, a, b).len() == b - a,
        forall|i: int| 0 <= i < b - a ==> #[trigger] preorder_of(s, a, b)[i] == s.labels@[preorder_ids(s, a, b)[i]],
    decreases b - a,
{
    lemma_preorder_len(s, a, b);
    if b > a {
        let v = b - 1;
        let lv = clamp(s.lml(v), a, v);
        lemma_preorder_ids(s, a, lv);
        lemma_preorder_ids(s, lv, v);
        lemma_preorder_len(s, a, lv);
        let ids = preorder_ids(s, a, b);
        let pre = preorder_of(s, a, b);
        assert forall|i: int| 0 <= i < b - a implies #[trigger] pre[i] == s.labels@[ids[i]] by {
            if i < lv - a {
                assert(pre[i] == preorder_of(s, a, lv)[i]);
                assert(ids[i] == preorder_ids(s, a, lv)[i]);
            } else if i > lv - a {
                assert(pre[i] == preorder_of(s, lv, v)[i - (lv - a) - 1]);
                assert(ids[i] == preorder_ids(s, lv, v)[i - (lv - a) - 1]);
            }
        }
    }
}

/// Inside a forest the last tree starts at its root's leftmost leaf; what
/// comes before it and its children's forest are forests again.
proof fn lemma_forest_last_tree(s: UnifiedTreeIndex, a: int, b: int)
    requires
        s.wf(),
        is_forest(s, a, b),
        a < b,
    ensures
        clamp(s.lml(b - 1), a, b - 1) == s.lml(b - 1),
        is_forest(s, a, s.lml(b - 1)),
        is_forest(s, s.lml(b - 1), b - 1),
        is_forest(s, s.lml(b - 1), b),
        is_forest(s, a, b - 1),
{
    let v = b - 1;
    assert(1 <= s.sz(v));
    assert forall|u: int| s.lml(v) <= u < b implies s.lml(v) <= #[trigger] s.lml(u) by {
        if u < v {
            assert(s.sz(v) == s.sz(v) && s.sz(u) == s.sz(u));
        }
    }
}

/// The preorder of a forest is that of a prefix of whole trees followed by
/// that of the rest.
proof fn lemma_preorder_concat(s: UnifiedTreeIndex, a: int, m: int, b: int)
    requires
        s.wf(),
        is_forest(s, a, b),
        is_forest(s, m, b),
        a <= m,
    ensures
        preorder_of(s, a, b) == preorder_of(s, a, m) + preorder_of(s, m, b),
    decreases b - a,
{
    if m == b {
        assert(preorder_of(s, a, b) =~= preorder_of(s, a, m) + preorder_of(s, m, b));
    } else {
        let v = b - 1;
        lemma_forest_last_tree(s, a, b);
        lemma_forest_last_tree(s, m, b);
        let lv = s.lml(v);
        lemma_preorder_concat(s, a, m, lv);
        assert(preorder_of(s, a, b) =~= preorder_of(s, a, m) + preorder_of(s, m, b));
    }
}

/// Every edit script between two forests also edits their preorder label
/// sequences.
proof fn lemma_sfdist_preorder(s1: UnifiedTreeIndex, s2: UnifiedTreeIndex, a: int, b: int, c: int, d: int)
    requires
        s1.wf(),
        s2.wf(),
        is_forest(s1, a, b),
        is_forest(s2, c, d),
    ensures
        edit_distance(preorder_of(s1, a, b), preorder_of(s2, c, d)) <= sfdist(s1, s2, a, b, c, d),
    decreases (b - a) + (d - c),
{
    let p = preorder_of(s1, a, b);
    let q = preorder_of(s2, c, d);
    lemma_preorder_len(s1, a, b);
    lemma_preorder_len(s2, c, d);
    lemma_ed_unfold(p, q);
    if b > a && d > c {
        let v = b - 1;
        let w = d - 1;
        lemma_forest_last_tree(s1, a, b);
        lemma_forest_last_tree(s2, c, d);
        let lv = s1.lml(v);
        let lw = s2.lml(w);
        let x = s1.labels@[v];
        let y = s2.labels@[w];
        // deleting the last root
        lemma_sfdist_preorder(s1, s2, a, v, c, d);
        lemma_preorder_concat(s1, a, lv, v);
        lemma_ed_insert_mid(preorder_of(s1, a, lv), x, preorder_of(s1, lv, v), q);
        // inserting the last root
        lemma_sfdist_preorder(s1, s2, a, b, c, w);
        lemma_preorder_concat(s2, c, lw, w);
        lemma_ed_insert_mid(preorder_of(s2, c, lw), y, preorder_of(s2, lw, w), p);
        lemma_edit_distance_symmetric(p, q);
        lemma_edit_distance_symmetric(p, preorder_of(s2, c, w));
        if lv == a && lw == c {
            lemma_sfdist_preorder(s1, s2, a, v, c, w);
            assert(p =~= seq![x] + preorder_of(s1, a, v));
            assert(q =~= seq![y] + preorder_of(s2, c, w));
            lemma_ed_concat(seq![x], preorder_of(s1, a, v), seq![y], preorder_of(s2, c, w));
            lemma_ed_unfold(seq![x], seq![y]);
            assert(seq![x].drop_last() =~= Seq::<String>::empty());
            assert(seq![y].drop_last() =~= Seq::<String>::empty());
            lemma_ed_unfold(Seq::<String>::empty(), Seq::<String>::empty());
        } else {
            lemma_sfdist_preorder(s1, s2, a, lv, c, lw);
            lemma_sfdist_preorder(s1, s2, lv, b, lw, d);
            assert(clamp(s1.lml(v), lv, v) == lv);
            assert(clamp(s2.lml(w), lw, w) == lw);
            assert(preorder_of(s1, lv, b) == preorder_of(s1, lv, lv) + seq![x] + preorder_of(s1, lv, v));
            assert(preorder_of(s2, lw, d) == preorder_of(s2, lw, lw) + seq![y] + preorder_of(s2, lw, w));
            assert(p =~= preorder_of(s1, a, lv) + preorder_of(s1, lv, b));
            assert(q =~= preorder_of(s2, c, lw) + preorder_of(s2, lw, d));
            lemma_ed_concat(preorder_of(s1, a, lv), preorder_of(s1, lv, b), preorder_of(s2, c, lw), preorder_of(s2, lw, d));
        }
    }
}

/// Law: the string edit distance between the preorder label sequences of two
/// trees never exceeds their tree edit distance.
pub proof fn preorder_ed_within_ted(s1: UnifiedTreeIndex, s2: UnifiedTreeIndex)
    requires
        s1.wf(),
        s2.wf(),
    ensures
        edit_distance(preorder_of(s1, 0, s1.n()), preorder_of(s2, 0, s2.n())) <= substrate_ted(s1, s2),
{
    assert forall|u: int| 0 <= u < s1.n() implies 0 <= #[trigger] s1.lml(u) by {
        assert(s1.sz(u) <= u + 1);
    }
    assert forall|u: int| 0 <= u < s2.n() implies 0 <= #[trigger] s2.lml(u) by {
        assert(s2.sz(u) <= u + 1);
    }
    lemma_sfdist_preorder(s1, s2, 0, s1.n(), 0, s2.n());
}

/// Every edit script between two forests also edits their postorder label
/// sequences.
proof fn lemma_sfdist_postorder(s1: UnifiedTreeIndex, s2: UnifiedTreeIndex, a: int, b: int, c: int, d: int)
    requires
        0 <= a <= b <= s1.labels@.len(),
        0 <= c <= d <= s2.labels@.len(),
    ensures
        edit_distance(s1.labels@.subrange(a, b), s2.labels@.subrange(c, d)) <= sfdist(s1, s2, a, b, c, d),
    decreases (b - a) + (d - c),
{
    let x = s1.labels@.subrange(a, b);
    let y = s2.labels@.subrange(c, d);
    lemma_ed_unfold(x, y);
    if b > a && d > c {
        let v = b - 1;
        let w = d - 1;
        let lv = clamp(s1.lml(v), a, v);
        let lw = clamp(s2.lml(w), c, w);
        assert(x.drop_last() =~= s1.labels@.subrange(a, v));
        assert(y.drop_last() =~= s2.labels@.subrange(c, w));
        lemma_sfdist_postorder(s1, s2, a, v, c, d);
        lemma_sfdist_postorder(s1, s2, a, b, c, w);
        if lv == a && lw == c {
            lemma_sfdist_postorder(s1, s2, a, v, c, w);
        } else {
            lemma_sfdist_postorder(s1, s2, a, lv, c, lw);
            lemma_sfdist_postorder(s1, s2, lv, b, lw, d);
            assert(x =~= s1.labels@.subrange(a, lv) + s1.labels@.subrange(lv, b));
            assert(y =~= s2.labels@.subrange(c, lw) + s2.labels@.subrange(lw, d));
            lemma_ed_concat(
                s1.labels@.subrange(a, lv),
                s1.labels@.subrange(lv, b),
                s2.labels@.subrange(c, lw),
                s2.labels@.subrange(lw, d),
            );
        }
    }
}

/// Law: the string edit distance between the postorder label sequences of two
/// trees never exceeds their tree edit distance.
pub proof fn postorder_ed_within_ted(s1: UnifiedTreeIndex, s2: UnifiedTreeIndex)
    requires
        s1.wf(),
        s2.wf(),
    ensures
        edit_distance(s1.labels@, s2.labels@) <= substrate_ted(s1, s2),
{
    lemma_sfdist_postorder(s1, s2, 0, s1.n(), 0, s2.n());
    assert(s1.labels@.subrange(0, s1.n()) =~= s1.labels@);
    assert(s2.labels@.subrange(0, s2.n()) =~= s2.labels@);
}


/// The forest `[a, b)` holds exactly the slots `[p, p + (b - a))` of `t`;
/// then its preorder lists their postorder positions in slot order.
proof fn lemma_preorder_slots(s: UnifiedTreeIndex, t: TreeArena, a: int, b: int, p: int)
    requires
        t.is_tree(),
        s.wf(),
        s.encodes(t),
        is_forest(s, a, b),
        0 <= p,
        p + (b - a) <= t.n(),
        forall|z: int| 0 <= z < t.n() ==> (a <= #[trigger] t.post_index(z) < b <==> p <= z < p + (b - a)),
    ensures
        preorder_ids(s, a, b).len() == b - a,
        forall|i: int| 0 <= i < b - a ==> #[trigger] preorder_ids(s, a, b)[i] == t.post_index(p + i),
    decreases b - a,
{
    if b > a {
        let v = b - 1;
        lemma_post_onto(t, v);
        let y = choose|y: int| 0 <= y < t.n() && #[trigger] t.post_index(y) == v;
        assert(p <= y < p + (b - a));
        lemma_forest_last_tree(s, a, b);
        let lv = s.lml(v);
        assert(s.sz(t.post_index(y)) == t.size(y));
        let e = y + t.size(y);
        lemma_desc_post(t, y, e - 1);
        if e < p + (b - a) {
            lemma_after_post(t, y, e);
        }
        assert(e == p + (b - a));
        assert forall|z: int| 0 <= z < t.n() implies (a <= #[trigger] t.post_index(z) < lv <==> p <= z < p + (lv - a)) by {
            if a <= t.post_index(z) < lv && y <= z {
                lemma_desc_post(t, y, z);
            }
            if p <= z < y && t.post_index(z) >= lv {
                lemma_post_block(t, y, z);
            }
        }
        lemma_preorder_slots(s, t, a, lv, p);
        assert forall|z: int| 0 <= z < t.n() implies (lv <= #[trigger] t.post_index(z) < v <==> y + 1 <= z < y + 1 + (v - lv)) by {
            if lv <= t.post_index(z) < v {
                lemma_post_block(t, y, z);
            }
            if y + 1 <= z < e {
                lemma_desc_post(t, y, z);
            }
        }
        lemma_preorder_slots(s, t, lv, v, y + 1);
        let whole = preorder_ids(s, a, b);
        assert(whole == preorder_ids(s, a, lv) + seq![v] + preorder_ids(s, lv, v));
        assert forall|i: int| 0 <= i < b - a implies #[trigger] whole[i] == t.post_index(p + i) by {
            if i < lv - a {
                assert(whole[i] == preorder_ids(s, a, lv)[i]);
            } else if i == lv - a {
                assert(whole[i] == v);
            } else {
                assert(whole[i] == preorder_ids(s, lv, v)[i - (lv - a) - 1]);
            }
        }
    }
}

/// The preorder of a substrate lists the labels of the tree it encodes in
/// slot order.
pub proof fn lemma_substrate_traversals(s: UnifiedTreeIndex, t: TreeArena)
    requires
        t.is_tree(),
        s.wf(),
        s.encodes(t),
    ensures
        preorder_of(s, 0, s.n()).len() == t.n(),
        forall|i: int| 0 <= i < t.n() ==> #[trigger] preorder_of(s, 0, s.n())[i]@ == t.label(i),
        forall|i: int| 0 <= i < t.n() ==> #[trigger] preorder_ids(s, 0, s.n())[i] == t.post_index(i),
{
    let n = s.n();
    assert forall|u: int| 0 <= u < n implies 0 <= #[trigger] s.lml(u) by {
        assert(s.sz(u) <= u + 1);
    }
    assert forall|z: int| 0 <= z < t.n() implies (0 <= #[trigger] t.post_index(z) < n <==> 0 <= z < 0 + (n - 0)) by {
        lemma_post_index_range(t, z);
    }
    lemma_preorder_slots(s, t, 0, n, 0);
    lemma_preorder_ids(s, 0, n);
    lemma_preorder_len(s, 0, n);
    assert forall|i: int| 0 <= i < t.n() implies #[trigger] preorder_of(s, 0, n)[i]@ == t.label(i) by {
        assert(preorder_ids(s, 0, n)[i] == t.post_index(0 + i));
    }
}

/// Law: for the traversal indexes of two trees, each of the two string edit
/// distances (preorder and postorder) is at most the tree edit distance.
pub proof fn traversal_ed_within_ted(s1: UnifiedTreeIndex, s2: UnifiedTreeIndex, t1: TreeArena, t2: TreeArena, i1: SEDIndex, i2: SEDIndex)
    requires
        t1.is_tree(),
        t2.is_tree(),
        s1.wf(),
        s2.wf(),
        s1.encodes(t1),
        s2.encodes(t2),
        i1.indexes(t1),
        i2.indexes(t2),
    ensures
        edit_distance(i1.preorder@, i2.preorder@) <= substrate_ted(s1, s2),
        edit_distance(i1.postorder@, i2.postorder@) <= substrate_ted(s1, s2),
{
    lemma_substrate_traversals(s1, t1);
    lemma_substrate_traversals(s2, t2);
    lemma_ed_texts(i1.preorder@, i2.preorder@, preorder_of(s1, 0, s1.n()), preorder_of(s2, 0, s2.n()));
    preorder_ed_within_ted(s1, s2);
    assert forall|q: int| 0 <= q < i1.postorder@.len() implies #[trigger] i1.postorder@[q]@ == s1.labels@[q]@ by {
        lemma_post_onto(t1, q);
        let y = choose|y: int| 0 <= y < t1.n() && #[trigger] t1.post_index(y) == q;
    }
    assert forall|q: int| 0 <= q < i2.postorder@.len() implies #[trigger] i2.postorder@[q]@ == s2.labels@[q]@ by {
        lemma_post_onto(t2, q);
        let y = choose|y: int| 0 <= y < t2.n() && #[trigger] t2.post_index(y) == q;
    }
    lemma_ed_texts(i1.postorder@, i2.postorder@, s1.labels@, s2.labels@);
    postorder_ed_within_ted(s1, s2);
}


/// Law: the postorder labels and subtree sizes determine the tree: two trees
/// with the same substrate have the same slots, labels, sizes and parents.
pub proof fn substrate_determines_tree(s: UnifiedTreeIndex, t1: TreeArena, t2: TreeArena)
    requires
        s.wf(),
        t1.is_tree(),
        t2.is_tree(),
        s.encodes(t1),
        s.encodes(t2),
    ensures
        t1.n() == t2.n(),
        forall|y: int| 0 <= y < t1.n() ==> #[trigger] t1.label(y) == t2.label(y),
        forall|y: int| 0 <= y < t1.n() ==> #[trigger] t1.size(y) == t2.size(y),
        forall|y: int| 0 <= y < t1.n() ==> #[trigger] t1.par(y) == t2.par(y),
{
    lemma_substrate_traversals(s, t1);
    lemma_substrate_traversals(s, t2);
    let ids = preorder_ids(s, 0, s.n());
    assert forall|y: int| 0 <= y < t1.n() implies #[trigger] t1.size(y) == t2.size(y) by {
        assert(ids[y] == t1.post_index(y) && ids[y] == t2.post_index(y));
        assert(s.sz(t1.post_index(y)) == t1.size(y));
        assert(s.sz(t2.post_index(y)) == t2.size(y));
    }
    assert forall|y: int| 0 <= y < t1.n() implies #[trigger] t1.label(y) == t2.label(y) by {
        assert(preorder_of(s, 0, s.n())[y]@ == t1.label(y));
    }
    assert forall|y: int| 0 <= y < t1.n() implies #[trigger] t1.par(y) == t2.par(y) by {
        if y > 0 {
            assert(y < 0 + t1.size(0));
            assert(t1.par(y) >= 0) by {
                assert(0 < y < 0 + t1.size(0));
            }
            assert(t2.par(y) >= 0) by {
                assert(0 < y < 0 + t2.size(0));
            }
            let p1 = t1.par(y);
            let p2 = t2.par(y);
            assert(t1.size(p1) == t2.size(p1));
            assert(t1.size(p2) == t2.size(p2));
            if p1 < p2 {
                assert(t1.par(y) >= p2);
            } else if p2 < p1 {
                assert(t2.par(y) >= p1);
            }
        }
    }
}


/// Law: two traversal indexes of one tree hold the same label sequences, so
/// the index built from a substrate is the one built from its tree.
pub proof fn sed_indexes_agree(t: TreeArena, i1: SEDIndex, i2: SEDIndex)
    requires
        t.is_tree(),
        i1.indexes(t),
        i2.indexes(t),
    ensures
        texts(i1.preorder@) == texts(i2.preorder@),
        texts(i1.postorder@) == texts(i2.postorder@),
        i1.tree_size == i2.tree_size,
{
    assert(texts(i1.preorder@) =~= texts(i2.preorder@));
    assert forall|q: int| 0 <= q < i1.postorder@.len() implies #[trigger] texts(i1.postorder@)[q] == texts(i2.postorder@)[q] by {
        lemma_post_onto(t, q);
        let y = choose|y: int| 0 <= y < t.n() && #[trigger] t.post_index(y) == q;
    }
    assert(texts(i1.postorder@) =~= texts(i2.postorder@));
}


/// Arenas with the same parents have the same depths.
pub proof fn lemma_depth_agree(t1: TreeArena, t2: TreeArena, y: int)
    requires
        t1.n() == t2.n(),
        forall|z: int| 0 <= z < t1.n() ==> #[trigger] t1.par(z) == t2.par(z),
    ensures
        t1.depth(y) == t2.depth(y),
    decreases y,
{
    if 0 < y < t1.n() && 0 <= t1.par(y) < y {
        assert(t1.par(y) == t2.par(y));
        lemma_depth_agree(t1, t2, t1.par(y));
    } else if 0 < y < t1.n() {
        assert(t1.par(y) == t2.par(y));
    }
}

} // verus!
