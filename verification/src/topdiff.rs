//! Bounded tree edit distance over postorder-indexed trees.
//!
//! A tree (or forest) is given by its nodes in left-to-right postorder: the
//! label id and subtree size of each node.  The subtree of node `v` is the
//! interval `[lml(v), v]` of postorder ids, where `lml(v) = v - size(v) + 1`
//! is its leftmost leaf.  The edit distance of two forests is defined by the
//! classic recursion on their rightmost roots, with unit-cost deletion,
//! insertion and relabelling; `ted_k` computes it and caps it at `k + 1`.

use crate::edit_distance::MAX_SEQ_LEN;
use vstd::prelude::*;

verus! {

/// Postorder index of a tree for the bounded tree edit distance.  All vectors
/// are indexed by postorder id: label id, subtree size, depth (the root has
/// depth 0), leftmost child (-1 for a leaf) and nearest keyroot on the path
/// to the root; `list_kr` holds the keyroots (the root and every node with a
/// left sibling).
#[derive(Debug)]
pub struct TopDiffIndex {
    pub tree_size: i32,
    pub postl_to_label_id: Vec<i32>,
    pub postl_to_size: Vec<i32>,
    pub postl_to_depth: Vec<i32>,
    pub postl_to_lch: Vec<i32>,
    pub postl_to_kr_ancestor: Vec<i32>,
    pub list_kr: Vec<i32>,
}

impl TopDiffIndex {
    pub open spec fn n(&self) -> int {
        self.tree_size as int
    }

    pub open spec fn sz(&self, v: int) -> int {
        self.postl_to_size@[v] as int
    }

    pub open spec fn lbl(&self, v: int) -> i32 {
        self.postl_to_label_id@[v]
    }

    /// Leftmost leaf of the subtree of `v`.
    pub open spec fn lml(&self, v: int) -> int {
        v - self.sz(v) + 1
    }

    /// The labels and sizes describe a forest in postorder: every subtree is
    /// an interval ending at its root, and intervals nest.
    pub open spec fn wf(&self) -> bool {
        &&& 0 <= self.tree_size <= MAX_SEQ_LEN
        &&& self.postl_to_label_id@.len() == self.n()
        &&& self.postl_to_size@.len() == self.n()
        &&& forall|v: int| 0 <= v < self.n() ==> 1 <= #[trigger] self.sz(v) <= v + 1
        &&& forall|v: int, u: int|
            #![trigger self.sz(v), self.sz(u)]
            0 <= v < self.n() && self.lml(v) <= u < v ==> self.lml(v) <= self.lml(u)
    }
}

/// Cost of relabelling node `v` of `t1` into node `w` of `t2`.
pub open spec fn relabel_cost(t1: TopDiffIndex, t2: TopDiffIndex, v: int, w: int) -> int {
    if t1.lbl(v) == t2.lbl(w) {
        0
    } else {
        1
    }
}

/// `x` clamped into `[lo, hi]`.
pub open spec fn clamp(x: int, lo: int, hi: int) -> int {
    if x < lo {
        lo
    } else if x > hi {
        hi
    } else {
        x
    }
}

/// Edit distance between the forest of postorder ids `[a, b)` of `t1` and the
/// forest `[c, d)` of `t2`.  With `v = b - 1` and `w = d - 1` the rightmost
/// roots: delete `v`, insert `w`, or map `v` to `w`, which pairs the forests
/// left of their subtrees and the subtrees themselves; two whole trees are
/// mapped root to root, pairing the forests below the roots.
pub open spec fn fdist(t1: TopDiffIndex, t2: TopDiffIndex, a: int, b: int, c: int, d: int) -> int
    decreases (if b > a { b - a } else { 0 }) + (if d > c { d - c } else { 0 }),
{
    if b <= a {
        if d <= c {
            0
        } else {
            d - c
        }
    } else if d <= c {
        b - a
    } else {
        let v = b - 1;
        let w = d - 1;
        let lv = clamp(t1.lml(v), a, v);
        let lw = clamp(t2.lml(w), c, w);
        let del = fdist(t1, t2, a, v, c, d) + 1;
        let ins = fdist(t1, t2, a, b, c, w) + 1;
        let map = if lv == a && lw == c {
            fdist(t1, t2, a, v, c, w) + relabel_cost(t1, t2, v, w)
        } else {
            fdist(t1, t2, a, lv, c, lw) + fdist(t1, t2, lv, b, lw, d)
        };
        if del <= ins && del <= map {
            del
        } else if ins <= map {
            ins
        } else {
            map
        }
    }
}

/// Edit distance between the subtrees of `v` and `w`.
pub open spec fn tdist(t1: TopDiffIndex, t2: TopDiffIndex, v: int, w: int) -> int {
    fdist(t1, t2, t1.lml(v), v + 1, t2.lml(w), w + 1)
}

/// Tree edit distance between the two indexed forests.
pub open spec fn ted(t1: TopDiffIndex, t2: TopDiffIndex) -> int {
    fdist(t1, t2, 0, t1.n(), 0, t2.n())
}

/// The distance of two forests lies between 0 and the sum of their sizes.
pub proof fn lemma_fdist_bounds(t1: TopDiffIndex, t2: TopDiffIndex, a: int, b: int, c: int, d: int)
    requires
        a <= b,
        c <= d,
    ensures
        0 <= fdist(t1, t2, a, b, c, d) <= (b - a) + (d - c),
    decreases (b - a) + (d - c),
{
    if b > a && d > c {
        let v = b - 1;
        let w = d - 1;
        let lv = clamp(t1.lml(v), a, v);
        let lw = clamp(t2.lml(w), c, w);
        lemma_fdist_bounds(t1, t2, a, v, c, d);
        lemma_fdist_bounds(t1, t2, a, b, c, w);
        if lv == a && lw == c {
            lemma_fdist_bounds(t1, t2, a, v, c, w);
        } else {
            lemma_fdist_bounds(t1, t2, a, lv, c, lw);
            lemma_fdist_bounds(t1, t2, lv, b, lw, d);
        }
    }
}

/// The forest distance does not depend on which forest comes first.
pub proof fn lemma_fdist_symmetric(t1: TopDiffIndex, t2: TopDiffIndex, a: int, b: int, c: int, d: int)
    ensures
        fdist(t1, t2, a, b, c, d) == fdist(t2, t1, c, d, a, b),
    decreases (if b > a { b - a } else { 0 }) + (if d > c { d - c } else { 0 }),
{
    if b > a && d > c {
        let v = b - 1;
        let w = d - 1;
        let lv = clamp(t1.lml(v), a, v);
        let lw = clamp(t2.lml(w), c, w);
        lemma_fdist_symmetric(t1, t2, a, v, c, d);
        lemma_fdist_symmetric(t1, t2, a, b, c, w);
        if lv == a && lw == c {
            lemma_fdist_symmetric(t1, t2, a, v, c, w);
        } else {
            lemma_fdist_symmetric(t1, t2, a, lv, c, lw);
            lemma_fdist_symmetric(t1, t2, lv, b, lw, d);
        }
    }
}

/// A forest is at distance 0 from itself.
pub proof fn lemma_fdist_self(t: TopDiffIndex, a: int, b: int)
    requires
        a <= b,
    ensures
        fdist(t, t, a, b, a, b) == 0,
    decreases b - a,
{
    if b > a {
        let v = b - 1;
        let lv = clamp(t.lml(v), a, v);
        lemma_fdist_bounds(t, t, a, v, a, b);
        lemma_fdist_bounds(t, t, a, b, a, v);
        if lv == a {
            lemma_fdist_self(t, a, v);
        } else {
            lemma_fdist_self(t, a, lv);
            lemma_fdist_self(t, lv, b);
        }
    }
}

/// Law: the tree edit distance is symmetric.
pub proof fn ted_symmetric(t1: TopDiffIndex, t2: TopDiffIndex)
    ensures
        ted(t1, t2) == ted(t2, t1),
{
    lemma_fdist_symmetric(t1, t2, 0, t1.n(), 0, t2.n());
}

/// Law: a tree is at distance 0 from itself, and every distance is at least 0
/// and at most the sum of the two sizes.
pub proof fn ted_identity_and_range(t1: TopDiffIndex, t2: TopDiffIndex)
    requires
        t1.wf(),
        t2.wf(),
    ensures
        ted(t1, t1) == 0,
        0 <= ted(t1, t2) <= t1.n() + t2.n(),
{
    lemma_fdist_self(t1, 0, t1.n());
    lemma_fdist_bounds(t1, t2, 0, t1.n(), 0, t2.n());
}

/// Distance between the subtrees of `v` and `w` as already computed: rows of
/// `td` before row `cur_row`, and the first entries of row `cur_row` in `cur`.
pub open spec fn known(
    t1: TopDiffIndex,
    t2: TopDiffIndex,
    td: Seq<Vec<i32>>,
    cur: Seq<i32>,
    v: int,
    w: int,
) -> bool {
    ||| (v < td.len() && td[v]@.len() == t2.n() && td[v]@[w] as int == tdist(t1, t2, v, w))
    ||| (v == td.len() && w < cur.len() && cur[w] as int == tdist(t1, t2, v, w))
}

/// Looks up a known subtree distance.
fn lookup(td: &Vec<Vec<i32>>, cur: &Vec<i32>, v: usize, w: usize, Ghost(t1): Ghost<TopDiffIndex>, Ghost(t2): Ghost<TopDiffIndex>) -> (r: i32)
    requires
        known(t1, t2, td@, cur@, v as int, w as int),
        w < t2.n(),
    ensures
        r as int == tdist(t1, t2, v as int, w as int),
{
    if v < td.len() {
        td[v][w]
    } else {
        cur[w]
    }
}

/// Distance between the forests `[l1, e1)` of `t1` and `[l2, e2)` of `t2`,
/// filled row by row; the distances between inner subtrees that are not
/// aligned with both left ends are taken from `td` and `cur`.
fn forest_dist(
    t1: &TopDiffIndex,
    t2: &TopDiffIndex,
    td: &Vec<Vec<i32>>,
    cur: &Vec<i32>,
    l1: usize,
    e1: usize,
    l2: usize,
    e2: usize,
) -> (r: i32)
    requires
        t1.wf(),
        t2.wf(),
        l1 <= e1 <= t1.n(),
        l2 <= e2 <= t2.n(),
        forall|x: int| l1 <= x < e1 ==> l1 <= #[trigger] t1.lml(x),
        forall|y: int| l2 <= y < e2 ==> l2 <= #[trigger] t2.lml(y),
        forall|x: int, y: int|
            l1 <= x < e1 && l2 <= y < e2 && !(t1.lml(x) == l1 && t2.lml(y) == l2) ==> #[trigger] known(
                *t1,
                *t2,
                td@,
                cur@,
                x,
                y,
            ),
    ensures
        r as int == fdist(*t1, *t2, l1 as int, e1 as int, l2 as int, e2 as int),
{
    let h = e1 - l1;
    let wd = e2 - l2;
    let mut rows: Vec<Vec<i32>> = Vec::new();
    let mut first: Vec<i32> = Vec::new();
    let mut j: usize = 0;
    while j <= wd
        invariant
            j <= wd + 1,
            wd == e2 - l2,
            first@.len() == j,
            forall|y: int| 0 <= y < j ==> #[trigger] first@[y] as int == fdist(*t1, *t2, l1 as int, l1 as int, l2 as int, l2 + y),
            e2 <= t2.n(),
            t2.wf(),
        decreases wd + 1 - j,
    {
        first.push(j as i32);
        j = j + 1;
    }
    rows.push(first);
    let mut i: usize = 1;
    while i <= h
        invariant
            t1.wf(),
            t2.wf(),
            l1 <= e1 <= t1.n(),
            l2 <= e2 <= t2.n(),
            h == e1 - l1,
            wd == e2 - l2,
            1 <= i <= h + 1,
            rows@.len() == i,
            forall|x: int| l1 <= x < e1 ==> l1 <= #[trigger] t1.lml(x),
            forall|y: int| l2 <= y < e2 ==> l2 <= #[trigger] t2.lml(y),
            forall|x: int, y: int|
                l1 <= x < e1 && l2 <= y < e2 && !(t1.lml(x) == l1 && t2.lml(y) == l2) ==> #[trigger] known(
                    *t1,
                    *t2,
                    td@,
                    cur@,
                    x,
                    y,
                ),
            forall|a: int| 0 <= a < i ==> (#[trigger] rows@[a])@.len() == wd + 1,
            forall|a: int, b: int|
                0 <= a < i && 0 <= b <= wd ==> (#[trigger] rows@[a]@[b]) as int == fdist(
                    *t1,
                    *t2,
                    l1 as int,
                    l1 + a,
                    l2 as int,
                    l2 + b,
                ),
        decreases h + 1 - i,
    {
        let v = l1 + i - 1;
        assert(t1.sz(v as int) >= 1);
        let lv = v + 1 - t1.postl_to_size[v] as usize;
        let mut row: Vec<i32> = Vec::new();
        proof {
            lemma_fdist_bounds(*t1, *t2, l1 as int, l1 + i, l2 as int, l2 as int);
        }
        row.push(i as i32);
        let mut j: usize = 1;
        while j <= wd
            invariant
                t1.wf(),
                t2.wf(),
                l1 <= e1 <= t1.n(),
                l2 <= e2 <= t2.n(),
                h == e1 - l1,
                wd == e2 - l2,
                1 <= i <= h,
                v == l1 + i - 1,
                lv == t1.lml(v as int),
                l1 <= lv <= v,
                1 <= j <= wd + 1,
                rows@.len() == i,
                row@.len() == j,
                forall|y: int| l2 <= y < e2 ==> l2 <= #[trigger] t2.lml(y),
                forall|x: int, y: int|
                    l1 <= x < e1 && l2 <= y < e2 && !(t1.lml(x) == l1 && t2.lml(y) == l2) ==> #[trigger] known(
                        *t1,
                        *t2,
                        td@,
                        cur@,
                        x,
                        y,
                    ),
                forall|a: int| 0 <= a < i ==> (#[trigger] rows@[a])@.len() == wd + 1,
                forall|a: int, b: int|
                    0 <= a < i && 0 <= b <= wd ==> (#[trigger] rows@[a]@[b]) as int == fdist(
                        *t1,
                        *t2,
                        l1 as int,
                        l1 + a,
                        l2 as int,
                        l2 + b,
                    ),
                forall|b: int| 0 <= b < j ==> (#[trigger] row@[b]) as int == fdist(
                    *t1,
                    *t2,
                    l1 as int,
                    l1 + i,
                    l2 as int,
                    l2 + b,
                ),
            decreases wd + 1 - j,
        {
            let w = l2 + j - 1;
            assert(t2.sz(w as int) >= 1);
            let lw = w + 1 - t2.postl_to_size[w] as usize;
            proof {
                assert(l2 <= t2.lml(w as int));
                lemma_fdist_bounds(*t1, *t2, l1 as int, v as int, l2 as int, l2 + j);
                lemma_fdist_bounds(*t1, *t2, l1 as int, l1 + i, l2 as int, w as int);
                lemma_fdist_bounds(*t1, *t2, l1 as int, l1 + i, l2 as int, l2 + j);
                assert(rows@[i - 1]@[j as int] as int == fdist(*t1, *t2, l1 as int, l1 + (i - 1), l2 as int, l2 + j));
            }
            let del = rows[i - 1][j] + 1;
            let ins = row[j - 1] + 1;
            let map = if lv == l1 && lw == l2 {
                proof {
                    lemma_fdist_bounds(*t1, *t2, l1 as int, v as int, l2 as int, w as int);
                    assert(rows@[i - 1]@[j - 1] as int == fdist(*t1, *t2, l1 as int, l1 + (i - 1), l2 as int, l2 + (j - 1)));
                }
                let c: i32 = if t1.postl_to_label_id[v] == t2.postl_to_label_id[w] { 0 } else { 1 };
                rows[i - 1][j - 1] + c
            } else {
                proof {
                    assert(known(*t1, *t2, td@, cur@, v as int, w as int));
                    lemma_fdist_bounds(*t1, *t2, l1 as int, lv as int, l2 as int, lw as int);
                    lemma_fdist_bounds(*t1, *t2, lv as int, v + 1, lw as int, w + 1);
                    assert(rows@[lv - l1]@[lw - l2] as int == fdist(*t1, *t2, l1 as int, l1 + (lv - l1), l2 as int, l2 + (lw - l2)));
                }
                rows[lv - l1][lw - l2] + lookup(td, cur, v, w, Ghost(*t1), Ghost(*t2))
            };
            let best = if del <= ins && del <= map {
                del
            } else if ins <= map {
                ins
            } else {
                map
            };
            proof {
                assert(clamp(t1.lml(v as int), l1 as int, v as int) == lv);
                assert(clamp(t2.lml(w as int), l2 as int, w as int) == lw);
                assert(best as int == fdist(*t1, *t2, l1 as int, l1 + i, l2 as int, l2 + j));
            }
            row.push(best);
            j = j + 1;
        }
        rows.push(row);
        i = i + 1;
    }
    rows[h][wd]
}

/// Exact tree edit distance between the two indexed forests.
pub fn tree_distance(t1: &TopDiffIndex, t2: &TopDiffIndex) -> (r: i32)
    requires
        t1.wf(),
        t2.wf(),
    ensures
        r as int == ted(*t1, *t2),
{
    let n1 = t1.tree_size as usize;
    let n2 = t2.tree_size as usize;
    let mut td: Vec<Vec<i32>> = Vec::new();
    let mut v: usize = 0;
    while v < n1
        invariant
            t1.wf(),
            t2.wf(),
            n1 == t1.n(),
            n2 == t2.n(),
            v <= n1,
            td@.len() == v,
            forall|x: int, y: int| 0 <= x < v && 0 <= y < n2 ==> #[trigger] known(*t1, *t2, td@, Seq::empty(), x, y),
        decreases n1 - v,
    {
        let mut cur: Vec<i32> = Vec::new();
        assert(t1.sz(v as int) >= 1);
        let l1 = v + 1 - t1.postl_to_size[v] as usize;
        let mut w: usize = 0;
        while w < n2
            invariant
                t1.wf(),
                t2.wf(),
                n1 == t1.n(),
                n2 == t2.n(),
                v < n1,
                l1 == t1.lml(v as int),
                td@.len() == v,
                w <= n2,
                cur@.len() == w,
                forall|x: int, y: int| 0 <= x < v && 0 <= y < n2 ==> #[trigger] known(*t1, *t2, td@, cur@, x, y),
                forall|y: int| 0 <= y < w ==> #[trigger] known(*t1, *t2, td@, cur@, v as int, y),
            decreases n2 - w,
        {
            assert(t2.sz(w as int) >= 1);
            let l2 = w + 1 - t2.postl_to_size[w] as usize;
            proof {
                assert forall|x: int| l1 <= x < v + 1 implies l1 <= #[trigger] t1.lml(x) by {
                    if x < v {
                        assert(t1.sz(v as int) >= 1 && t1.sz(x) >= 1);
                    }
                }
                assert forall|y: int| l2 <= y < w + 1 implies l2 <= #[trigger] t2.lml(y) by {
                    if y < w {
                        assert(t2.sz(w as int) >= 1 && t2.sz(y) >= 1);
                    }
                }
                assert forall|x: int, y: int|
                    l1 <= x < v + 1 && l2 <= y < w + 1 && !(t1.lml(x) == l1 && t2.lml(y) == l2) implies #[trigger] known(
                        *t1,
                        *t2,
                        td@,
                        cur@,
                        x,
                        y,
                    ) by {
                    if x == v {
                        assert(y != w);
                    }
                }
            }
            let d = forest_dist(t1, t2, &td, &cur, l1, v + 1, l2, w + 1);
            let ghost before = cur@;
            cur.push(d);
            proof {
                assert forall|x: int, y: int| 0 <= x < v && 0 <= y < n2 implies #[trigger] known(*t1, *t2, td@, cur@, x, y) by {
                    assert(known(*t1, *t2, td@, before, x, y));
                }
                assert forall|y: int| 0 <= y < w + 1 implies #[trigger] known(*t1, *t2, td@, cur@, v as int, y) by {
                    if y < w {
                        assert(known(*t1, *t2, td@, before, v as int, y));
                        assert(cur@[y] == before[y]);
                    }
                }
            }
            w = w + 1;
        }
        let ghost before = td@;
        let ghost row = cur@;
        td.push(cur);
        proof {
            assert forall|x: int, y: int| 0 <= x < v + 1 && 0 <= y < n2 implies #[trigger] known(*t1, *t2, td@, Seq::empty(), x, y) by {
                if x < v {
                    assert(known(*t1, *t2, before, row, x, y));
                    assert(td@[x] == before[x]);
                } else {
                    assert(known(*t1, *t2, before, row, x, y));
                }
            }
        }
        v = v + 1;
    }
    let empty: Vec<i32> = Vec::new();
    proof {
        assert forall|x: int| 0 <= x < n1 implies 0 <= #[trigger] t1.lml(x) by {
            assert(t1.sz(x) >= 1);
        }
        assert forall|y: int| 0 <= y < n2 implies 0 <= #[trigger] t2.lml(y) by {
            assert(t2.sz(y) >= 1);
        }
        assert forall|x: int, y: int| 0 <= x < n1 && 0 <= y < n2 && !(t1.lml(x) == 0 && t2.lml(y) == 0) implies #[trigger] known(
            *t1,
            *t2,
            td@,
            empty@,
            x,
            y,
        ) by {
            assert(known(*t1, *t2, td@, Seq::empty(), x, y));
        }
    }
    forest_dist(t1, t2, &td, &empty, 0, n1, 0, n2)
}

/// Bounded tree edit distance: the exact distance when it is at most `k`,
/// otherwise `k + 1`.
pub fn ted_k(t1: &TopDiffIndex, t2: &TopDiffIndex, k: i32) -> (r: i32)
    requires
        t1.wf(),
        t2.wf(),
        k < i32::MAX,
    ensures
        r as int == (if ted(*t1, *t2) <= k { ted(*t1, *t2) } else { k + 1 }),
{
    let d = tree_distance(t1, t2);
    if d <= k {
        d
    } else {
        k + 1
    }
}

} // verus!
