//! The postorder substrate of a tree: its labels and subtree sizes in
//! postorder, which determine the tree.  It is rebuilt into an arena and
//! expanded into the working forms of the bounded distances.

use crate::collections::{intern, interned, lemma_interned, LabelDict};
use crate::edit_distance::MAX_SEQ_LEN;
use crate::sed::{intern_labels, sed_struct_index_int, texts, tree_labels, SEDStructIndexInt};
use crate::string_bounds::{lemma_substrate_traversals, preorder_of};
use crate::topdiff::TopDiffIndex;
use crate::traversal::{lemma_post_onto, lemma_depth_desc_gap, lemma_depth_le_index, lemma_post_block, lemma_post_index_range, shape_of, tree_shape};
use crate::tree::{id_of, lemma_anc_end, NodeId, TreeArena};
use vstd::prelude::*;

verus! {

/// Labels and subtree sizes of a tree, in postorder.
#[derive(Debug, Clone, PartialEq, Eq)]
pub struct UnifiedTreeIndex {
    pub labels: Vec<String>,
    pub sizes: Vec<i32>,
    pub tree_size: usize,
}

impl UnifiedTreeIndex {
    pub open spec fn n(&self) -> int {
        self.tree_size as int
    }

    pub open spec fn sz(&self, v: int) -> int {
        self.sizes@[v] as int
    }

    /// Leftmost leaf of the subtree of `v`.
    pub open spec fn lml(&self, v: int) -> int {
        v - self.sz(v) + 1
    }

    /// The sizes describe one tree in postorder: every subtree is an
    /// interval ending at its root, intervals nest, and the last node is the
    /// root of all.
    pub open spec fn wf(&self) -> bool {
        &&& self.tree_size <= MAX_SEQ_LEN
        &&& self.labels@.len() == self.n()
        &&& self.sizes@.len() == self.n()
        &&& forall|v: int| 0 <= v < self.n() ==> 1 <= #[trigger] self.sz(v) <= v + 1
        &&& forall|v: int, u: int|
            #![trigger self.sz(v), self.sz(u)]
            0 <= v < self.n() && self.lml(v) <= u < v ==> self.lml(v) <= self.lml(u)
        &&& self.n() > 0 ==> self.sz(self.n() - 1) == self.n()
    }

    /// The substrate lists the nodes of `t` in postorder.
    pub open spec fn encodes(&self, t: TreeArena) -> bool {
        &&& self.tree_size == t.n()
        &&& self.labels@.len() == t.n()
        &&& self.sizes@.len() == t.n()
        &&& forall|y: int| 0 <= y < t.n() ==> #[trigger] self.labels@[t.post_index(y)]@ == t.label(y)
        &&& forall|y: int| 0 <= y < t.n() ==> #[trigger] self.sz(t.post_index(y)) == t.size(y)
    }

    /// Checks `wf`.
    pub fn is_well_formed(&self) -> (r: bool)
        ensures
            r == self.wf(),
    {
        let n = self.tree_size;
        if n > MAX_SEQ_LEN || self.labels.len() != n || self.sizes.len() != n {
            return false;
        }
        let mut v: usize = 0;
        while v < n
            invariant
                n == self.n(),
                n <= MAX_SEQ_LEN,
                self.labels@.len() == n,
                self.sizes@.len() == n,
                v <= n,
                forall|x: int| 0 <= x < v ==> 1 <= #[trigger] self.sz(x) <= x + 1,
                forall|x: int, u: int|
                    #![trigger self.sz(x), self.sz(u)]
                    0 <= x < v && self.lml(x) <= u < x ==> self.lml(x) <= self.lml(u),
            decreases n - v,
        {
            let s = self.sizes[v];
            if s < 1 || s as usize > v + 1 {
                proof {
                    assert(!(1 <= self.sz(v as int) <= v + 1));
                }
                return false;
            }
            let l = v + 1 - s as usize;
            let mut u: usize = l;
            while u < v
                invariant
                    n == self.n(),
                    self.sizes@.len() == n,
                    v < n,
                    l == self.lml(v as int),
                    l <= u <= v,
                    n <= MAX_SEQ_LEN,
                    1 <= self.sz(v as int) <= v + 1,
                    forall|w: int| l <= w < u ==> l <= self.lml(w),
                decreases v - u,
            {
                let su = self.sizes[u] as i64;
                if (u as i64) - su + 1 < l as i64 {
                    proof {
                        assert(self.sz(v as int) >= 1 && self.sz(u as int) == su);
                        assert(!(self.lml(v as int) <= self.lml(u as int)));
                    }
                    return false;
                }
                u = u + 1;
            }
            proof {
                assert forall|x: int, w: int|
                    #![trigger self.sz(x), self.sz(w)]
                    0 <= x < v + 1 && self.lml(x) <= w < x implies self.lml(x) <= self.lml(w) by {
                    if x == v {
                        assert(l <= self.lml(w));
                    }
                }
            }
            v = v + 1;
        }
        if n > 0 && self.sizes[n - 1] as usize != n {
            return false;
        }
        true
    }

    /// Lists the nodes of a tree in postorder with their subtree sizes; an
    /// empty arena gives an empty substrate.
    pub fn from_tree(tree: &TreeArena) -> (r: UnifiedTreeIndex)
        requires
            tree.wf(),
            tree.n() == 0 || tree.is_tree(),
        ensures
            r.encodes(*tree),
            r.wf(),
    {
        let n = tree.count();
        let mut labels: Vec<String> = Vec::new();
        let mut sizes: Vec<i32> = Vec::new();
        if n == 0 {
            return UnifiedTreeIndex { labels, sizes, tree_size: 0 };
        }
        let shape = tree_shape(tree);
        let mut p: usize = 0;
        while p < n
            invariant
                tree.is_tree(),
                n == tree.n(),
                shape_of(*tree, shape),
                p <= n,
                labels@.len() == p,
                sizes@.len() == p,
                forall|q: int| 0 <= q < p ==> #[trigger] labels@[q]@ == tree.label(shape.postorder@[q] as int),
                forall|q: int| 0 <= q < p ==> #[trigger] sizes@[q] as int == tree.size(shape.postorder@[q] as int),
            decreases n - p,
        {
            let y = shape.postorder[p];
            proof {
                assert(tree.in_tree(shape.postorder@[p as int] as int));
                assert(tree.node_ok(y as int));
            }
            labels.push(tree.node(y).get().clone());
            sizes.push(shape.sizes[y] as i32);
            p = p + 1;
        }
        proof {
            assert forall|y: int| 0 <= y < n implies #[trigger] labels@[tree.post_index(y)]@ == tree.label(y) by {
                lemma_post_index_range(*tree, y);
                assert(shape.postorder@[tree.post_index(y)] as int == y);
            }
            assert forall|y: int| 0 <= y < n implies #[trigger] sizes@[tree.post_index(y)] as int == tree.size(y) by {
                lemma_post_index_range(*tree, y);
                assert(shape.postorder@[tree.post_index(y)] as int == y);
            }
        }
        let r = UnifiedTreeIndex { labels, sizes, tree_size: n };
        proof {
            assert forall|v: int| 0 <= v < r.n() implies 1 <= #[trigger] r.sz(v) <= v + 1 by {
                let y = shape.postorder@[v] as int;
                assert(tree.in_tree(y));
                lemma_depth_le_index(*tree, y);
            }
            assert forall|v: int, u: int|
                #![trigger r.sz(v), r.sz(u)]
                0 <= v < r.n() && r.lml(v) <= u < v implies r.lml(v) <= r.lml(u) by {
                let y = shape.postorder@[v] as int;
                let x = shape.postorder@[u] as int;
                assert(tree.in_tree(y) && tree.in_tree(x));
                assert(tree.post_index(y) == v && tree.post_index(x) == u);
                lemma_post_block(*tree, y, x);
                lemma_depth_desc_gap(*tree, y, x);
            }
            assert(tree.in_tree(0));
            assert(shape.postorder@[tree.post_index(0)] as int == 0);
        }
        r
    }

    /// `cs` lists the children of `u`, left to right: the first starts at the
    /// leftmost leaf of `u`, the last child is `u - 1`, and each child ends
    /// right before the leftmost leaf of the next.
    pub open spec fn children_are(&self, u: int, cs: Seq<usize>) -> bool {
        &&& cs.len() == 0 <==> self.sz(u) == 1
        &&& cs.len() > 0 ==> self.lml(cs[0] as int) == self.lml(u)
        &&& cs.len() > 0 ==> cs[cs.len() - 1] == u - 1
        &&& forall|i: int| 0 <= i < cs.len() ==> self.lml(u) <= #[trigger] cs[i] < u
        &&& forall|i: int| 0 <= i < cs.len() - 1 ==> #[trigger] cs[i] + 1 == self.lml(cs[i + 1] as int)
    }

    /// The children of `u`, left to right.
    pub(crate) fn children_of(&self, u: usize) -> (cs: Vec<usize>)
        requires
            self.wf(),
            u < self.n(),
        ensures
            self.children_are(u as int, cs@),
    {
        proof {
            assert(1 <= self.sz(u as int) <= u + 1);
        }
        let l = u + 1 - self.sizes[u] as usize;
        let mut rev: Vec<usize> = Vec::new();
        let mut c: usize = u;
        while c > l
            invariant
                self.wf(),
                u < self.n(),
                l == self.lml(u as int),
                l <= c <= u,
                rev@.len() == 0 <==> c == u,
                rev@.len() > 0 ==> rev@[0] == u - 1,
                rev@.len() > 0 ==> self.lml(rev@[rev@.len() - 1] as int) == c,
                forall|i: int| 0 <= i < rev@.len() ==> l <= #[trigger] rev@[i] < u,
                forall|i: int| 0 <= i < rev@.len() - 1 ==> #[trigger] rev@[i + 1] + 1 == self.lml(rev@[i] as int),
            decreases c,
        {
            let x = c - 1;
            proof {
                assert(1 <= self.sz(x as int) <= x + 1);
                assert(self.sz(u as int) >= 1);
                assert(l <= self.lml(x as int));
            }
            rev.push(x);
            c = x + 1 - self.sizes[x] as usize;
        }
        let mut cs: Vec<usize> = Vec::new();
        let mut i: usize = rev.len();
        while i > 0
            invariant
                i <= rev@.len(),
                cs@.len() == rev@.len() - i,
                forall|j: int| 0 <= j < cs@.len() ==> #[trigger] cs@[j] == rev@[rev@.len() - 1 - j],
            decreases i,
        {
            i = i - 1;
            cs.push(rev[i]);
        }
        proof {
            let k = rev@.len();
            assert forall|j: int| 0 <= j < cs@.len() - 1 implies #[trigger] cs@[j] + 1 == self.lml(cs@[j + 1] as int) by {
                assert(cs@[j] == rev@[k - 1 - j]);
                assert(cs@[j + 1] == rev@[k - 1 - (j + 1)]);
                assert(rev@[(k - 2 - j) + 1] + 1 == self.lml(rev@[k - 2 - j] as int));
            }
            assert forall|j: int| 0 <= j < cs@.len() implies self.lml(u as int) <= #[trigger] cs@[j] < u by {
                assert(cs@[j] == rev@[k - 1 - j]);
            }
            if k > 0 {
                assert(cs@[0] == rev@[k - 1]);
                assert(cs@[k - 1] == rev@[0]);
            }
        }
        cs
    }
}

/// Sizes of `t` grew by `amount` on the ancestors-or-self of `p` in `o`, and
/// the old slots keep their labels and parents.
pub open spec fn grown(o: TreeArena, t: TreeArena, p: int, amount: int) -> bool {
    &&& forall|i: int| 0 <= i < o.n() ==> #[trigger] t.label(i) == o.label(i)
    &&& forall|i: int| 0 <= i < o.n() ==> #[trigger] t.par(i) == o.par(i)
    &&& forall|i: int|
        0 <= i < o.n() ==> #[trigger] t.size(i) == o.size(i) + (if p >= 0 && o.is_anc_or_self(i, p) {
            amount
        } else {
            0
        })
}

/// Depths of the old slots do not change while their parents do not.
proof fn lemma_depth_stable(o: TreeArena, t: TreeArena, i: int)
    requires
        o.n() <= t.n(),
        forall|j: int| 0 <= j < o.n() ==> #[trigger] t.par(j) == o.par(j),
        0 <= i < o.n(),
    ensures
        t.depth(i) == o.depth(i),
    decreases i,
{
    if i > 0 && o.par(i) >= 0 && o.par(i) < i {
        lemma_depth_stable(o, t, o.par(i));
    }
}

impl UnifiedTreeIndex {
    /// Expands the substrate into its structural traversals and its postorder
    /// index for the bounded tree edit distance, interning labels (in
    /// preorder) into the shared `dict`.
    pub fn expand(&self, dict: &mut LabelDict) -> (r: (SEDStructIndexInt, TopDiffIndex))
        requires
            self.wf(),
            self.n() > 0,
            old(dict).wf(),
            old(dict).entries().len() + self.n() < i32::MAX,
        ensures
            final(dict).wf(),
            final(dict).entries() == interned(old(dict).entries(), texts(preorder_of(*self, 0, self.n()))),
            final(dict).entries().dom() == old(dict).entries().dom() + texts(self.labels@).to_set(),
            old(dict).entries().submap_of(final(dict).entries()),
            final(dict).entries().len() <= old(dict).entries().len() + self.n(),
            r.0.wf(),
            r.1.wf(),
            r.1.postl_to_size@ == self.sizes@,
            forall|v: int| 0 <= v < self.n() ==> final(dict).entries().dom().contains(#[trigger] self.labels@[v]@),
            forall|v: int| 0 <= v < self.n() ==> #[trigger] r.1.postl_to_label_id@[v] == final(dict).entries()[self.labels@[v]@],
            exists|t: TreeArena|
                t.is_tree() && self.encodes(t) && r.0.indexes(t, final(dict).entries()) && r.1.indexes(
                    t,
                    final(dict).entries(),
                ),
    {
        let ghost d0 = dict.entries();
        let t = self.rebuild_arena();
        let ghost labels = tree_labels(t);
        proof {
            lemma_substrate_traversals(*self, t);
            assert(labels =~= texts(preorder_of(*self, 0, self.n())));
            lemma_interned(d0, labels);
            let post = texts(self.labels@);
            assert forall|x: Seq<char>| labels.to_set().contains(x) implies post.to_set().contains(x) by {
                let y = choose|y: int| 0 <= y < labels.len() && labels[y] == x;
                assert(self.labels@[t.post_index(y)]@ == t.label(y));
                lemma_post_index_range(t, y);
                assert(post[t.post_index(y)] == x);
            }
            assert forall|x: Seq<char>| post.to_set().contains(x) implies labels.to_set().contains(x) by {
                let q = choose|q: int| 0 <= q < post.len() && post[q] == x;
                lemma_post_onto(t, q);
                let y = choose|y: int| 0 <= y < t.n() && #[trigger] t.post_index(y) == q;
                assert(self.labels@[t.post_index(y)]@ == t.label(y));
                assert(labels[y] == x);
            }
            assert(labels.to_set() =~= post.to_set());
        }
        let sed = sed_struct_index_int(&t, dict);
        let ghost d1 = dict.entries();
        proof {
            lemma_interned(d1, labels);
            assert forall|i: int| 0 <= i < labels.len() implies d1.dom().contains(#[trigger] labels[i]) by {
                assert(labels.to_set().contains(labels[i]));
            }
        }
        let td = topdiff_index(&t, dict);
        proof {
            let d = dict.entries();
            let n = t.n();
            vstd::map_lib::lemma_submap_of_trans(d0, d1, d);
            assert forall|y: int| 0 <= y < n implies #[trigger] sed.first_traversal@[y].label == d[t.label(y)] by {
                assert(d1.dom().contains(t.label(y)));
                assert(sed.first_traversal@[y].label == d1[t.label(y)]);
                assert(d.dom().contains(t.label(y)));
            }
            assert forall|y: int| 0 <= y < n implies #[trigger] sed.second_traversal@[n - 1 - y].label == d[t.label(y)] by {
                assert(d1.dom().contains(t.label(y)));
                assert(sed.second_traversal@[n - 1 - y].label == d1[t.label(y)]);
                assert(d.dom().contains(t.label(y)));
            }
            assert(sed.indexes(t, d));
            assert forall|v: int| 0 <= v < n implies #[trigger] td.postl_to_size@[v] == self.sizes@[v] by {
                assert(node_at(t, v));
                let y = choose|y: int| 0 <= y < n && #[trigger] t.post_index(y) == v;
                assert(self.sz(t.post_index(y)) == t.size(y));
            }
            assert(td.postl_to_size@ =~= self.sizes@);
            assert forall|v: int| 0 <= v < n implies d.dom().contains(#[trigger] self.labels@[v]@) && td.postl_to_label_id@[v]
                == d[self.labels@[v]@] by {
                assert(node_at(t, v));
                let y = choose|y: int| 0 <= y < n && #[trigger] t.post_index(y) == v;
                assert(self.labels@[t.post_index(y)]@ == t.label(y));
                assert(d.dom().contains(t.label(y)));
            }
            assert forall|v: int| 0 <= v < td.n() implies 1 <= #[trigger] td.sz(v) <= v + 1 by {
                assert(td.sz(v) == self.sz(v));
            }
            assert forall|v: int, u: int|
                #![trigger td.sz(v), td.sz(u)]
                0 <= v < td.n() && td.lml(v) <= u < v implies td.lml(v) <= td.lml(u) by {
                assert(td.sz(v) == self.sz(v) && td.sz(u) == self.sz(u));
            }
            assert(td.wf());
        }
        (sed, td)
    }
}

/// Slot `y` of `t` is the substrate node `post_index(y)`, inside `[lo, hi]`.
pub open spec fn slot_matches(s: UnifiedTreeIndex, t: TreeArena, y: int, lo: int, hi: int) -> bool {
    &&& lo <= t.post_index(y) <= hi
    &&& s.labels@[t.post_index(y)]@ == t.label(y)
    &&& s.sz(t.post_index(y)) == t.size(y)
}

/// Appends to `arena` the subtree of substrate node `u`, in preorder, as the
/// last child of slot `parent` (or as the first root), at depth `d`.
fn rebuild_subtree(s: &UnifiedTreeIndex, u: usize, parent: Option<usize>, arena: &mut TreeArena, Ghost(d): Ghost<int>)
    requires
        s.wf(),
        u < s.n(),
        old(arena).wf(),
        old(arena).n() + s.sz(u as int) <= s.n(),
        old(arena).n() - d == s.lml(u as int),
        parent matches Some(p) ==> p < old(arena).n() && p + old(arena).size(p as int) == old(arena).n() && d
            == old(arena).depth(p as int) + 1,
        parent is None ==> old(arena).n() == 0 && d == 0,
    ensures
        final(arena).wf(),
        final(arena).n() == old(arena).n() + s.sz(u as int),
        grown(*old(arena), *final(arena), (if parent is Some { parent->Some_0 as int } else { -1 }), s.sz(u as int)),
        final(arena).par(old(arena).n()) == (if parent is Some { parent->Some_0 as int } else { -1 }),
        final(arena).size(old(arena).n()) == s.sz(u as int),
        final(arena).depth(old(arena).n()) == d,
        forall|y: int|
            old(arena).n() <= y < final(arena).n() ==> #[trigger] slot_matches(*s, *final(arena), y, s.lml(u as int), u as int),
    decreases s.sz(u as int),
{
    let ghost a0 = *arena;
    let m = arena.count();
    let id = arena.new_node(s.labels[u].clone());
    let ghost a1 = *arena;
    match parent {
        Some(p) => {
            NodeId(p + 1).append(id, arena);
            proof {
                assert(arena.par(m as int) == p);
                crate::traversal::lemma_depth_child(*arena, m as int);
                lemma_depth_stable(a0, *arena, p as int);
            }
        },
        None => {
        },
    }
    let ghost a2 = *arena;
    proof {
        assert(a2.depth(m as int) == d);
        assert(a2.size(m as int) == 1);
        assert forall|i: int| 0 <= i < a0.n() implies #[trigger] a2.label(i) == a0.label(i) && a2.par(i) == a0.par(i)
            && a2.size(i) == a0.size(i) + (if parent is Some && a0.is_anc_or_self(i, parent->Some_0 as int) { 1int } else { 0 }) by {
            assert(a1.label(i) == a0.label(i));
            assert(a1.size(i) == a0.size(i));
            assert(a1.par(i) == a0.par(i));
            if parent is Some {
                let p = parent->Some_0 as int;
                assert(a1.is_anc_or_self(i, p) == a0.is_anc_or_self(i, p));
            }
        }
    }
    let cs = s.children_of(u);
    let mut k: usize = 0;
    while k < cs.len()
        invariant
            s.wf(),
            u < s.n(),
            a2.wf(),
            arena.wf(),
            m == a0.n(),
            a2.n() == m + 1,
            m - d == s.lml(u as int),
            m + s.sz(u as int) <= s.n(),
            a2.depth(m as int) == d,
            a2.par(m as int) == (if parent is Some { parent->Some_0 as int } else { -1 }),
            a2.label(m as int) == s.labels@[u as int]@,
            k <= cs@.len(),
            cs@.len() == 0 <==> s.sz(u as int) == 1,
            cs@.len() > 0 ==> s.lml(cs@[0] as int) == s.lml(u as int),
            cs@.len() > 0 ==> cs@[cs@.len() - 1] == u - 1,
            forall|i: int| 0 <= i < cs@.len() ==> s.lml(u as int) <= #[trigger] cs@[i] < u,
            forall|i: int| 0 <= i < cs@.len() - 1 ==> #[trigger] cs@[i] + 1 == s.lml(cs@[i + 1] as int),
            arena.n() == (if k == 0 { m + 1 } else { cs@[k - 1] + 1 + d + 1 }),
            k < cs@.len() ==> arena.n() == s.lml(cs@[k as int] as int) + d + 1,
            grown(a2, *arena, m as int, arena.n() - (m + 1)),
            arena.depth(m as int) == d,
            forall|y: int| m < y < arena.n() ==> #[trigger] slot_matches(*s, *arena, y, s.lml(u as int), u - 1),
        decreases cs@.len() - k,
    {
        let c = cs[k];
        let ghost b = *arena;
        proof {
            assert(s.lml(u as int) <= c < u);
            assert(1 <= s.sz(c as int) <= c + 1);
            assert(s.sz(u as int) >= 1);
            assert(s.lml(u as int) <= s.lml(c as int));
            assert(b.size(m as int) == a2.size(m as int) + (b.n() - (m + 1)));
            assert(a2.is_anc_or_self(m as int, m as int));
        }
        rebuild_subtree(s, c, Some(m), arena, Ghost(d + 1));
        proof {
            let t = *arena;
            lemma_depth_stable(b, t, m as int);
            assert forall|y: int| m < y < t.n() implies #[trigger] slot_matches(*s, t, y, s.lml(u as int), u - 1) by {
                if y < b.n() {
                    assert(slot_matches(*s, b, y, s.lml(u as int), u - 1));
                    lemma_depth_stable(b, t, y);
                    assert(!b.is_anc_or_self(y, m as int));
                    assert(t.size(y) == b.size(y));
                    assert(t.label(y) == b.label(y));
                } else {
                    assert(slot_matches(*s, t, y, s.lml(c as int), c as int));
                }
            }
            assert forall|i: int| 0 <= i < a2.n() implies #[trigger] t.label(i) == a2.label(i) by {
                assert(t.label(i) == b.label(i));
            }
            assert forall|i: int| 0 <= i < a2.n() implies #[trigger] t.par(i) == a2.par(i) by {
                assert(t.par(i) == b.par(i));
            }
            assert forall|i: int| 0 <= i < a2.n() implies #[trigger] t.size(i) == a2.size(i) + (if m >= 0 && a2.is_anc_or_self(i, m as int) {
                t.n() - (m + 1)
            } else {
                0
            }) by {
                assert(t.size(i) == b.size(i) + (if b.is_anc_or_self(i, m as int) { s.sz(c as int) } else { 0 }));
                assert(a2.size(i) >= 1);
                assert(b.is_anc_or_self(i, m as int) == a2.is_anc_or_self(i, m as int));
            }
            if k + 1 < cs@.len() {
                assert(cs@[k as int] + 1 == s.lml(cs@[k + 1] as int));
            }
        }
        k = k + 1;
    }
    proof {
        let t = *arena;
        assert(t.n() == m + s.sz(u as int));
        assert(t.size(m as int) == s.sz(u as int));
        assert(t.par(m as int) == a2.par(m as int));
        assert(t.post_index(m as int) == u);
        assert forall|y: int| m <= y < t.n() implies #[trigger] slot_matches(*s, t, y, s.lml(u as int), u as int) by {
            if y == m {
                assert(t.label(m as int) == a2.label(m as int));
            } else {
                assert(slot_matches(*s, t, y, s.lml(u as int), u - 1));
            }
        }
        assert forall|i: int| 0 <= i < a0.n() implies #[trigger] t.label(i) == a0.label(i) by {
            assert(t.label(i) == a2.label(i));
        }
        assert forall|i: int| 0 <= i < a0.n() implies #[trigger] t.par(i) == a0.par(i) by {
            assert(t.par(i) == a2.par(i));
        }
        assert forall|i: int| 0 <= i < a0.n() implies #[trigger] t.size(i) == a0.size(i) + (if parent is Some && a0.is_anc_or_self(
            i,
            parent->Some_0 as int,
        ) {
            s.sz(u as int)
        } else {
            0
        }) by {
            assert(t.size(i) == a2.size(i) + (if a2.is_anc_or_self(i, m as int) { t.n() - (m + 1) } else { 0 }));
            assert(a0.size(i) >= 1 && i + a0.size(i) <= a0.n());
            if parent is Some {
                let p = parent->Some_0 as int;
                if a0.is_anc_or_self(i, p) {
                    assert(a1.size(i) == a0.size(i));
                    assert(a1.is_anc_or_self(i, p));
                    lemma_anc_end(a1, p, i);
                    assert(a2.size(i) == a0.size(i) + 1);
                    assert(a2.is_anc_or_self(i, m as int));
                } else {
                    assert(a2.size(i) == a0.size(i));
                    assert(!a2.is_anc_or_self(i, m as int));
                }
            } else {
                assert(a2.size(i) == a0.size(i));
                assert(!a2.is_anc_or_self(i, m as int));
            }
        }
    }
}

impl UnifiedTreeIndex {
    /// Rebuilds the tree as an arena in preorder; an empty substrate gives an
    /// empty arena.
    pub fn rebuild_arena(&self) -> (t: TreeArena)
        requires
            self.wf(),
        ensures
            t.wf(),
            self.n() == 0 ==> t.n() == 0,
            self.n() > 0 ==> t.is_tree() && self.encodes(t),
    {
        let n = self.tree_size;
        let mut arena = TreeArena::with_capacity(n);
        if n == 0 {
            return arena;
        }
        proof {
            assert(self.sz(n - 1) == n);
        }
        rebuild_subtree(self, n - 1, None, &mut arena, Ghost(0));
        proof {
            assert forall|y: int| 0 <= y < n implies #[trigger] self.labels@[arena.post_index(y)]@ == arena.label(y) by {
                assert(slot_matches(*self, arena, y, self.lml(n - 1), n - 1));
            }
            assert forall|y: int| 0 <= y < n implies #[trigger] self.sz(arena.post_index(y)) == arena.size(y) by {
                assert(slot_matches(*self, arena, y, self.lml(n - 1), n - 1));
            }
        }
        arena
    }
}

impl TreeArena {
    /// Slot `y` is a keyroot: the root, or a node with a left sibling.
    pub open spec fn is_keyroot(&self, y: int) -> bool {
        y == 0 || (self.par(y) >= 0 && y != self.par(y) + 1)
    }

    /// The nearest keyroot on the path from slot `y` to the root, `y` included.
    pub open spec fn kr_slot(&self, y: int) -> int
        decreases y,
    {
        if y <= 0 || self.is_keyroot(y) || self.par(y) < 0 || self.par(y) >= y {
            y
        } else {
            self.kr_slot(self.par(y))
        }
    }
}

impl TopDiffIndex {
    /// The vectors describe `t` in postorder, labels given by `d`.
    pub open spec fn indexes(&self, t: TreeArena, d: Map<Seq<char>, i32>) -> bool {
        let n = t.n();
        &&& self.tree_size == n
        &&& self.postl_to_label_id@.len() == n
        &&& self.postl_to_size@.len() == n
        &&& self.postl_to_depth@.len() == n
        &&& self.postl_to_lch@.len() == n
        &&& self.postl_to_kr_ancestor@.len() == n
        &&& forall|y: int|
            0 <= y < n ==> {
                let v = #[trigger] t.post_index(y);
                &&& self.postl_to_label_id@[v] == d[t.label(y)]
                &&& self.postl_to_size@[v] == t.size(y)
                &&& self.postl_to_depth@[v] == t.depth(y)
                &&& self.postl_to_lch@[v] == (if t.size(y) > 1 { t.post_index(y + 1) } else { -1 })
                &&& self.postl_to_kr_ancestor@[v] == t.post_index(t.kr_slot(y))
            }
        &&& forall|i: int, j: int| 0 <= i < j < self.list_kr@.len() ==> self.list_kr@[i] < self.list_kr@[j]
        &&& forall|i: int| 0 <= i < self.list_kr@.len() ==> keyroot_at(t, #[trigger] self.list_kr@[i] as int)
        &&& forall|y: int| 0 <= y < n && t.is_keyroot(y) ==> exists|i: int|
            0 <= i < self.list_kr@.len() && #[trigger] self.list_kr@[i] == t.post_index(y)
    }
}

/// Postorder position of slot `y` from its size and depth.
fn post_of(shape: &crate::traversal::TreeShape, y: usize, Ghost(t): Ghost<TreeArena>) -> (r: usize)
    requires
        t.is_tree(),
        shape_of(t, *shape),
        y < t.n(),
    ensures
        r == t.post_index(y as int),
{
    proof {
        crate::traversal::lemma_depth_le_index(t, y as int);
    }
    y + shape.sizes[y] - 1 - shape.depths[y]
}

/// Per postorder position: label id, subtree size, depth, leftmost child and
/// nearest keyroot.
fn node_vectors(
    tree: &TreeArena,
    shape: &crate::traversal::TreeShape,
    ids: &Vec<i32>,
    krs: &Vec<usize>,
    Ghost(d): Ghost<Map<Seq<char>, i32>>,
) -> (r: (Vec<i32>, Vec<i32>, Vec<i32>, Vec<i32>, Vec<i32>))
    requires
        tree.is_tree(),
        shape_of(*tree, *shape),
        ids@.len() == tree.n(),
        forall|x: int| 0 <= x < tree.n() ==> d[tree.label(x)] == #[trigger] ids@[x],
        krs@.len() == tree.n(),
        forall|x: int| 0 <= x < tree.n() ==> #[trigger] krs@[x] as int == tree.kr_slot(x),
        forall|x: int| 0 <= x < tree.n() ==> 0 <= #[trigger] krs@[x] < tree.n(),
    ensures
        r.0@.len() == tree.n(),
        r.1@.len() == tree.n(),
        r.2@.len() == tree.n(),
        r.3@.len() == tree.n(),
        r.4@.len() == tree.n(),
        forall|q: int| 0 <= q < tree.n() ==> #[trigger] r.0@[q] == d[tree.label(shape.postorder@[q] as int)],
        forall|q: int| 0 <= q < tree.n() ==> #[trigger] r.1@[q] == tree.size(shape.postorder@[q] as int),
        forall|q: int| 0 <= q < tree.n() ==> #[trigger] r.2@[q] == tree.depth(shape.postorder@[q] as int),
        forall|q: int|
            0 <= q < tree.n() ==> #[trigger] r.3@[q] == (if tree.size(shape.postorder@[q] as int) > 1 {
                tree.post_index(shape.postorder@[q] as int + 1)
            } else {
                -1
            }),
        forall|q: int| 0 <= q < tree.n() ==> #[trigger] r.4@[q] == tree.post_index(tree.kr_slot(shape.postorder@[q] as int)),
{
    let n = tree.count();
    let mut label_ids: Vec<i32> = Vec::new();
    let mut sizes: Vec<i32> = Vec::new();
    let mut depths: Vec<i32> = Vec::new();
    let mut lchs: Vec<i32> = Vec::new();
    let mut kr_anc: Vec<i32> = Vec::new();
    let mut v: usize = 0;
    while v < n
        invariant
            tree.is_tree(),
            n == tree.n(),
            shape_of(*tree, *shape),
            ids@.len() == n,
            forall|x: int| 0 <= x < n ==> d[tree.label(x)] == #[trigger] ids@[x],
            krs@.len() == n,
            forall|x: int| 0 <= x < n ==> #[trigger] krs@[x] as int == tree.kr_slot(x),
            forall|x: int| 0 <= x < n ==> 0 <= #[trigger] krs@[x] < n,
            v <= n,
            label_ids@.len() == v,
            sizes@.len() == v,
            depths@.len() == v,
            lchs@.len() == v,
            kr_anc@.len() == v,
            forall|q: int| 0 <= q < v ==> #[trigger] label_ids@[q] == d[tree.label(shape.postorder@[q] as int)],
            forall|q: int| 0 <= q < v ==> #[trigger] sizes@[q] == tree.size(shape.postorder@[q] as int),
            forall|q: int| 0 <= q < v ==> #[trigger] depths@[q] == tree.depth(shape.postorder@[q] as int),
            forall|q: int|
                0 <= q < v ==> #[trigger] lchs@[q] == (if tree.size(shape.postorder@[q] as int) > 1 {
                    tree.post_index(shape.postorder@[q] as int + 1)
                } else {
                    -1
                }),
            forall|q: int| 0 <= q < v ==> #[trigger] kr_anc@[q] == tree.post_index(tree.kr_slot(shape.postorder@[q] as int)),
        decreases n - v,
    {
        let x = shape.postorder[v];
        proof {
            assert(tree.in_tree(shape.postorder@[v as int] as int));
            crate::traversal::lemma_depth_le_index(*tree, x as int);
        }
        let size = shape.sizes[x];
        label_ids.push(ids[x]);
        sizes.push(size as i32);
        depths.push(shape.depths[x] as i32);
        if size > 1 {
            proof {
                assert(tree.size(x as int) == size);
            }
            let c = post_of(shape, x + 1, Ghost(*tree));
            lchs.push(c as i32);
        } else {
            lchs.push(-1);
        }
        let kx = krs[x];
        let kp = post_of(shape, kx, Ghost(*tree));
        proof {
            assert(tree.size(0) == n);
            lemma_post_index_range(*tree, kx as int);
        }
        let ghost k0 = kr_anc@;
        kr_anc.push(kp as i32);
        proof {
            assert(ids@[x as int] == d[tree.label(x as int)]);
            assert(krs@[x as int] as int == tree.kr_slot(x as int));
        }
        v = v + 1;
    }
    (label_ids, sizes, depths, lchs, kr_anc)
}

/// Some slot of `t` has postorder position `v`.
pub open spec fn node_at(t: TreeArena, v: int) -> bool {
    exists|y: int| 0 <= y < t.n() && #[trigger] t.post_index(y) == v
}

/// Postorder position `v` is that of a keyroot of `t`.
pub open spec fn keyroot_at(t: TreeArena, v: int) -> bool {
    exists|y: int| 0 <= y < t.n() && t.is_keyroot(y) && #[trigger] t.post_index(y) == v
}

/// The postorder positions of the keyroots, in increasing order.
fn keyroot_list(tree: &TreeArena, shape: &crate::traversal::TreeShape) -> (r: Vec<i32>)
    requires
        tree.is_tree(),
        shape_of(*tree, *shape),
    ensures
        forall|i: int, j: int| 0 <= i < j < r@.len() ==> r@[i] < r@[j],
        forall|i: int| 0 <= i < r@.len() ==> keyroot_at(*tree, #[trigger] r@[i] as int),
        forall|y: int| 0 <= y < tree.n() && tree.is_keyroot(y) ==> exists|i: int|
            0 <= i < r@.len() && #[trigger] r@[i] == tree.post_index(y),
{
    let n = tree.count();
    let mut list_kr: Vec<i32> = Vec::new();
    let mut v: usize = 0;
    while v < n
        invariant
            tree.is_tree(),
            n == tree.n(),
            shape_of(*tree, *shape),
            v <= n,
            forall|i: int, j: int| 0 <= i < j < list_kr@.len() ==> list_kr@[i] < list_kr@[j],
            forall|i: int| 0 <= i < list_kr@.len() ==> 0 <= #[trigger] list_kr@[i] < v,
            forall|i: int| 0 <= i < list_kr@.len() ==> keyroot_at(*tree, #[trigger] list_kr@[i] as int),
            forall|x: int|
                0 <= x < n && tree.is_keyroot(x) && 0 <= tree.post_index(x) < v ==> exists|i: int|
                    0 <= i < list_kr@.len() && #[trigger] list_kr@[i] == tree.post_index(x),
        decreases n - v,
    {
        let x = shape.postorder[v];
        proof {
            assert(tree.in_tree(shape.postorder@[v as int] as int));
            assert(tree.post_index(x as int) == v);
            assert(tree.node_ok(x as int));
        }
        let is_kr = match tree.node(x).parent {
            Some(pid) => pid.index() + 1 != x,
            None => true,
        };
        let ghost lk = list_kr@;
        if is_kr {
            list_kr.push(v as i32);
        }
        proof {
            assert(is_kr == tree.is_keyroot(x as int)) by {
                if x > 0 {
                    assert(tree.size(0) == n);
                    assert(tree.par(x as int) >= 0);
                }
            }
            assert forall|i: int| 0 <= i < list_kr@.len() implies keyroot_at(*tree, #[trigger] list_kr@[i] as int) by {
                if i < lk.len() {
                    assert(list_kr@[i] == lk[i]);
                } else {
                    assert(list_kr@[i] == tree.post_index(x as int));
                    assert(tree.is_keyroot(x as int));
                }
            }
            assert forall|z: int|
                0 <= z < n && tree.is_keyroot(z) && 0 <= tree.post_index(z) < v + 1 implies exists|i: int|
                    0 <= i < list_kr@.len() && #[trigger] list_kr@[i] == tree.post_index(z) by {
                if tree.post_index(z) == v {
                    assert(shape.postorder@[tree.post_index(z)] as int == z);
                    assert(list_kr@[list_kr@.len() - 1] == tree.post_index(z));
                } else {
                    let i = choose|i: int| 0 <= i < lk.len() && #[trigger] lk[i] == tree.post_index(z);
                    assert(list_kr@[i] == lk[i]);
                }
            }
        }
        v = v + 1;
    }
    proof {
        assert forall|x: int| 0 <= x < n && tree.is_keyroot(x) implies exists|i: int|
            0 <= i < list_kr@.len() && #[trigger] list_kr@[i] == tree.post_index(x) by {
            lemma_post_index_range(*tree, x);
        }
    }
    list_kr
}

/// Builds the postorder index of a tree for the bounded tree edit distance,
/// interning its labels (in preorder) into `dict`.
pub fn topdiff_index(tree: &TreeArena, dict: &mut LabelDict) -> (r: TopDiffIndex)
    requires
        tree.is_tree(),
        old(dict).wf(),
        interned(old(dict).entries(), tree_labels(*tree)).len() < i32::MAX,
    ensures
        final(dict).wf(),
        final(dict).entries() == interned(old(dict).entries(), tree_labels(*tree)),
        old(dict).entries().submap_of(final(dict).entries()),
        final(dict).entries().len() <= old(dict).entries().len() + tree.n(),
        forall|y: int| 0 <= y < tree.n() ==> final(dict).entries().dom().contains(#[trigger] tree.label(y)),
        r.indexes(*tree, final(dict).entries()),
        forall|v: int| 0 <= v < tree.n() ==> #[trigger] node_at(*tree, v),
{
    let ids = intern_labels(tree, dict);
    let shape = tree_shape(tree);
    let n = tree.count();
    let mut krs: Vec<usize> = Vec::new();
    let mut y: usize = 0;
    while y < n
        invariant
            tree.is_tree(),
            n == tree.n(),
            y <= n,
            krs@.len() == y,
            forall|x: int| 0 <= x < y ==> #[trigger] krs@[x] as int == tree.kr_slot(x),
            forall|x: int| 0 <= x < y ==> 0 <= #[trigger] krs@[x] < n,
        decreases n - y,
    {
        proof {
            assert(tree.node_ok(y as int));
            if y > 0 {
                assert(tree.size(0) == n);
                assert(tree.par(y as int) >= 0);
            }
        }
        let k = match tree.node(y).parent {
            Some(pid) => {
                let p = pid.index();
                if p + 1 != y {
                    y
                } else {
                    krs[p]
                }
            },
            None => y,
        };
        krs.push(k);
        y = y + 1;
    }
    let ghost d = dict.entries();
    let (label_ids, sizes, depths, lchs, kr_anc) = node_vectors(tree, &shape, &ids, &krs, Ghost(d));
    let list_kr = keyroot_list(tree, &shape);
    proof {
        assert forall|x: int| 0 <= x < n implies {
            let q = #[trigger] tree.post_index(x);
            &&& label_ids@[q] == d[tree.label(x)]
            &&& sizes@[q] == tree.size(x)
            &&& depths@[q] == tree.depth(x)
            &&& lchs@[q] == (if tree.size(x) > 1 { tree.post_index(x + 1) } else { -1 })
            &&& kr_anc@[q] == tree.post_index(tree.kr_slot(x))
        } by {
            lemma_post_index_range(*tree, x);
            assert(shape.postorder@[tree.post_index(x)] as int == x);
        }
        assert forall|v: int| 0 <= v < n implies #[trigger] node_at(*tree, v) by {
            assert(tree.in_tree(shape.postorder@[v] as int));
            assert(tree.post_index(shape.postorder@[v] as int) == v);
        }
    }
    TopDiffIndex {
        tree_size: n as i32,
        postl_to_label_id: label_ids,
        postl_to_size: sizes,
        postl_to_depth: depths,
        postl_to_lch: lchs,
        postl_to_kr_ancestor: kr_anc,
        list_kr,
    }
}

} // verus!
