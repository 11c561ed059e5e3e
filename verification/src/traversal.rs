//! Depth-first traversal of the tree rooted at the first slot of an arena.

use crate::tree::{id_of, NodeId, TreeArena};
use vstd::prelude::*;

verus! {

/// Shape of the tree rooted at slot 0: its slots in postorder, and the
/// subtree size and depth of every slot of that tree (indexed by slot).
pub struct TreeShape {
    pub postorder: Vec<usize>,
    pub sizes: Vec<usize>,
    pub depths: Vec<usize>,
}

impl TreeArena {
    /// Slots of the tree rooted at slot 0.
    pub open spec fn in_tree(&self, y: int) -> bool {
        0 <= y < self.size(0)
    }
}

/// Shape facts of a well-formed arena used by the traversals.
pub proof fn lemma_in_range(t: TreeArena, x: int, y: int)
    requires
        t.wf(),
        0 <= x < y < x + t.size(x),
        y < t.n(),
    ensures
        y + t.size(y) <= x + t.size(x),
        t.size(y) >= 1,
{
}

/// A child has one more ancestor than its parent.
pub proof fn lemma_depth_child(t: TreeArena, c: int)
    requires
        t.wf(),
        0 < c < t.n(),
        t.par(c) >= 0,
    ensures
        t.depth(c) == t.depth(t.par(c)) + 1,
{
}

/// `shape` describes the tree rooted at slot 0 of `t`.
pub open spec fn shape_of(t: TreeArena, shape: TreeShape) -> bool {
    &&& shape.postorder@.len() == t.size(0)
    &&& shape.sizes@.len() == t.n()
    &&& shape.depths@.len() == t.n()
    &&& forall|y: int| t.in_tree(y) ==> #[trigger] shape.sizes@[y] as int == t.size(y)
    &&& forall|y: int| t.in_tree(y) ==> #[trigger] shape.depths@[y] as int == t.depth(y)
    &&& forall|y: int| t.in_tree(y) ==> #[trigger] shape.postorder@[t.post_index(y)] as int == y
    &&& forall|q: int| 0 <= q < shape.postorder@.len() ==> t.in_tree(#[trigger] shape.postorder@[q] as int)
    &&& forall|q: int| 0 <= q < shape.postorder@.len() ==> t.post_index(#[trigger] shape.postorder@[q] as int) == q
}

/// Visits the subtree of slot `x`, whose depth is `depth`: records its slots in
/// postorder and the size and depth of each of them.
fn visit(
    tree: &TreeArena,
    x: usize,
    depth: usize,
    post: &mut Vec<usize>,
    sizes: &mut Vec<usize>,
    depths: &mut Vec<usize>,
) -> (sz: usize)
    requires
        tree.wf(),
        tree.n() > 0,
        tree.in_tree(x as int),
        depth == tree.depth(x as int),
        old(post)@.len() == x - depth,
        old(sizes)@.len() == tree.n(),
        old(depths)@.len() == tree.n(),
        forall|k: int| 0 <= k < old(post)@.len() ==> tree.in_tree(#[trigger] old(post)@[k] as int),
    ensures
        forall|k: int| 0 <= k < final(post)@.len() ==> tree.in_tree(#[trigger] final(post)@[k] as int),
        forall|k: int| old(post)@.len() <= k < final(post)@.len() ==> tree.post_index(#[trigger] final(post)@[k] as int) == k,
        sz == tree.size(x as int),
        final(post)@.len() == old(post)@.len() + sz,
        forall|k: int| 0 <= k < old(post)@.len() ==> #[trigger] final(post)@[k] == old(post)@[k],
        final(sizes)@.len() == tree.n(),
        final(depths)@.len() == tree.n(),
        forall|y: int| x <= y < x + sz ==> #[trigger] final(sizes)@[y] as int == tree.size(y),
        forall|y: int| x <= y < x + sz ==> #[trigger] final(depths)@[y] as int == tree.depth(y),
        forall|y: int| x <= y < x + sz ==> #[trigger] final(post)@[tree.post_index(y)] as int == y,
        forall|y: int| 0 <= y < tree.n() && !(x <= y < x + sz) ==> #[trigger] final(sizes)@[y] == old(sizes)@[y],
        forall|y: int| 0 <= y < tree.n() && !(x <= y < x + sz) ==> #[trigger] final(depths)@[y] == old(depths)@[y],
    decreases tree.size(x as int),
{
    proof {
        assert(tree.node_ok(x as int));
        assert(tree.node_ok(0));
        if x > 0 {
            lemma_in_range(*tree, 0, x as int);
        }
        lemma_depth_le_index(*tree, x as int);
    }
    let end: Ghost<int> = Ghost(x + tree.size(x as int));
    let ghost post0 = post@;
    let ghost sizes0 = sizes@;
    let ghost depths0 = depths@;
    let mut subtree_size: usize = 1;
    let mut cur = tree.node(x).first_child;
    while cur.is_some()
        invariant
            tree.wf(),
            tree.n() > 0,
            tree.in_tree(x as int),
            depth == tree.depth(x as int),
            end@ == x + tree.size(x as int),
            end@ <= tree.size(0),
            end@ <= tree.n(),
            1 <= subtree_size,
            x + subtree_size <= end@,
            post0.len() == x - depth,
            post@.len() == post0.len() + subtree_size - 1,
            forall|k: int| 0 <= k < post0.len() ==> #[trigger] post@[k] == post0[k],
            forall|k: int| 0 <= k < post@.len() ==> tree.in_tree(#[trigger] post@[k] as int),
            forall|k: int| post0.len() <= k < post@.len() ==> tree.post_index(#[trigger] post@[k] as int) == k,
            sizes@.len() == tree.n(),
            depths@.len() == tree.n(),
            x + subtree_size < end@ ==> cur == Some(id_of(x + subtree_size)) && tree.par(x + subtree_size) == x,
            x + subtree_size == end@ ==> cur is None,
            forall|y: int| x < y < x + subtree_size ==> #[trigger] sizes@[y] as int == tree.size(y),
            forall|y: int| x < y < x + subtree_size ==> #[trigger] depths@[y] as int == tree.depth(y),
            forall|y: int| x < y < x + subtree_size ==> #[trigger] post@[tree.post_index(y)] as int == y,
            forall|y: int| 0 <= y < tree.n() && !(x < y < x + subtree_size) ==> #[trigger] sizes@[y] == sizes0[y],
            forall|y: int| 0 <= y < tree.n() && !(x < y < x + subtree_size) ==> #[trigger] depths@[y] == depths0[y],
        decreases end@ - x - subtree_size,
    {
        let c = x + subtree_size;
        proof {
            assert(tree.node_ok(c as int));
            lemma_in_range(*tree, x as int, c as int);
            lemma_depth_child(*tree, c as int);
            lemma_in_range(*tree, 0, c as int);
            lemma_depth_le_index(*tree, c as int);
        }
        let ghost bp = post@;
        let ghost bs = sizes@;
        let ghost bd = depths@;
        let csz = visit(tree, c, depth + 1, post, sizes, depths);
        proof {
            assert forall|k: int| 0 <= k < post0.len() implies #[trigger] post@[k] == post0[k] by {
                assert(post@[k] == bp[k]);
            }
            assert forall|k: int| post0.len() <= k < post@.len() implies tree.post_index(#[trigger] post@[k] as int) == k by {
                if k < bp.len() {
                    assert(post@[k] == bp[k]);
                }
            }
            assert forall|y: int| x < y < c + csz implies #[trigger] sizes@[y] as int == tree.size(y) by {
                if y < c {
                    assert(bs[y] as int == tree.size(y));
                }
            }
            assert forall|y: int| x < y < c + csz implies #[trigger] depths@[y] as int == tree.depth(y) by {
                if y < c {
                    assert(bd[y] as int == tree.depth(y));
                }
            }
            assert forall|y: int| x < y < c + csz implies #[trigger] post@[tree.post_index(y)] as int == y by {
                if y < c {
                    assert(bp[tree.post_index(y)] as int == y);
                    lemma_in_range(*tree, x as int, y);
                    lemma_post_index_bounds(*tree, x as int, y, c as int);
                    assert(post@[tree.post_index(y)] == bp[tree.post_index(y)]);
                }
            }
            assert forall|y: int| 0 <= y < tree.n() && !(x < y < c + csz) implies #[trigger] sizes@[y] == sizes0[y] by {
                assert(sizes@[y] == bs[y]);
            }
            assert forall|y: int| 0 <= y < tree.n() && !(x < y < c + csz) implies #[trigger] depths@[y] == depths0[y] by {
                assert(depths@[y] == bd[y]);
            }
        }
        subtree_size = subtree_size + csz;
        cur = tree.node(c).next_sibling;
        proof {
            let sb = c + csz;
            assert(tree.par(c as int) == x);
            assert(sb <= end@);
            if sb < end@ {
                assert(tree.par(sb) == x);
            }
        }
    }
    let ghost bp = post@;
    let ghost bs = sizes@;
    let ghost bd = depths@;
    post.push(x);
    sizes.set(x, subtree_size);
    depths.set(x, depth);
    proof {
        assert(subtree_size == tree.size(x as int));
        assert forall|y: int| x <= y < x + subtree_size implies #[trigger] post@[tree.post_index(y)] as int == y by {
            if y > x {
                lemma_in_range(*tree, x as int, y);
                lemma_post_index_bounds(*tree, x as int, y, (x + subtree_size) as int);
                assert(post@[tree.post_index(y)] == bp[tree.post_index(y)]);
            }
        }
        assert forall|y: int| x <= y < x + subtree_size implies #[trigger] sizes@[y] as int == tree.size(y) by {
            if y > x {
                assert(sizes@[y] == bs[y]);
            }
        }
        assert forall|y: int| x <= y < x + subtree_size implies #[trigger] depths@[y] as int == tree.depth(y) by {
            if y > x {
                assert(depths@[y] == bd[y]);
            }
        }
        assert forall|k: int| 0 <= k < post0.len() implies #[trigger] post@[k] == post0[k] by {
            assert(post@[k] == bp[k]);
        }
        assert forall|k: int| post0.len() <= k < post@.len() implies tree.post_index(#[trigger] post@[k] as int) == k by {
            if k < bp.len() {
                assert(post@[k] == bp[k]);
            }
        }
    }
    subtree_size
}

/// Slots of an earlier child's subtree come before the current position in
/// postorder.
proof fn lemma_post_index_bounds(t: TreeArena, x: int, y: int, c: int)
    requires
        t.wf(),
        0 <= x < y < c <= x + t.size(x),
        c <= t.n(),
        y + t.size(y) <= c,
    ensures
        0 <= t.post_index(y) < c - 1 - t.depth(x),
{
    lemma_depth_le_index(t, y);
    lemma_depth_descendant(t, x, y);
}

/// A slot has at most as many ancestors as slots before it.
pub proof fn lemma_depth_le_index(t: TreeArena, y: int)
    requires
        t.wf(),
        0 <= y < t.n(),
    ensures
        0 <= t.depth(y) <= y,
    decreases y,
{
    if y > 0 && t.par(y) >= 0 {
        lemma_depth_le_index(t, t.par(y));
    }
}

/// A proper descendant is deeper than its ancestor.
pub proof fn lemma_depth_descendant(t: TreeArena, x: int, y: int)
    requires
        t.wf(),
        0 <= x < y < x + t.size(x),
        y < t.n(),
    ensures
        t.depth(y) > t.depth(x),
    decreases y,
{
    assert(t.size(x) >= 1);
    let p = t.par(y);
    assert(p >= x);
    if p > x {
        lemma_depth_descendant(t, x, p);
    }
}

/// A slot of the tree rooted at slot 0 has its postorder position inside it.
pub proof fn lemma_post_index_range(t: TreeArena, y: int)
    requires
        t.wf(),
        t.n() > 0,
        t.in_tree(y),
    ensures
        0 <= t.post_index(y) < t.size(0),
{
    lemma_depth_le_index(t, y);
    if y > 0 {
        lemma_in_range(t, 0, y);
        lemma_depth_descendant(t, 0, y);
    }
}

/// A descendant lies at most as many levels below its ancestor as slots
/// after it.
pub proof fn lemma_depth_desc_gap(t: TreeArena, y: int, x: int)
    requires
        t.wf(),
        0 <= y <= x < y + t.size(y),
        x < t.n(),
    ensures
        t.depth(x) - t.depth(y) <= x - y,
    decreases x,
{
    if x > y {
        let p = t.par(x);
        assert(p >= y);
        lemma_depth_child(t, x);
        lemma_depth_desc_gap(t, y, p);
    }
}

/// A slot after the subtree of `x` has at most as many more ancestors than
/// `x` as slots between the end of that subtree and itself.
pub proof fn lemma_depth_after_gap(t: TreeArena, x: int, y: int)
    requires
        t.wf(),
        0 <= x < t.n(),
        x + t.size(x) <= y < t.n(),
    ensures
        t.depth(y) <= t.depth(x) + (y - x - t.size(x)),
    decreases y,
{
    let z = x + t.size(x);
    let p = t.par(y);
    assert(t.size(x) >= 1);
    lemma_depth_le_index(t, x);
    if p >= 0 {
        assert(p < y);
        lemma_depth_child(t, y);
        if p >= z {
            lemma_depth_after_gap(t, x, p);
        } else if p > x {
            lemma_in_range(t, x, p);
        } else if p < x {
            assert(y < p + t.size(p));
            lemma_depth_descendant(t, p, x);
        }
    }
}

/// The postorder positions from the leftmost leaf of `y` to `y` itself hold
/// exactly the slots of the subtree of `y`.
pub proof fn lemma_post_block(t: TreeArena, y: int, x: int)
    requires
        t.wf(),
        0 <= y < t.n(),
        0 <= x < t.n(),
        y - t.depth(y) <= t.post_index(x) <= t.post_index(y),
    ensures
        y <= x < y + t.size(y),
{
    lemma_depth_le_index(t, x);
    lemma_depth_le_index(t, y);
    if x < y {
        if y < x + t.size(x) {
            lemma_in_range(t, x, y);
            lemma_depth_descendant(t, x, y);
        } else {
            lemma_depth_after_gap(t, x, y);
        }
    } else if x >= y + t.size(y) {
        lemma_depth_after_gap(t, y, x);
    }
}

/// The slots of the subtree of `y` sit at the postorder positions from the
/// leftmost leaf of `y` to `y`, proper descendants strictly before `y`.
pub proof fn lemma_desc_post(t: TreeArena, y: int, z: int)
    requires
        t.wf(),
        0 <= y <= z < y + t.size(y),
        z < t.n(),
    ensures
        y - t.depth(y) <= t.post_index(z) <= t.post_index(y),
        z > y ==> t.post_index(z) < t.post_index(y),
{
    lemma_depth_desc_gap(t, y, z);
    if z > y {
        lemma_in_range(t, y, z);
        lemma_depth_descendant(t, y, z);
    }
}

/// A slot after the subtree of `y` comes after `y` in postorder.
pub proof fn lemma_after_post(t: TreeArena, y: int, z: int)
    requires
        t.wf(),
        0 <= y < t.n(),
        y + t.size(y) <= z < t.n(),
    ensures
        t.post_index(z) > t.post_index(y),
{
    assert(t.size(z) >= 1);
    lemma_depth_after_gap(t, y, z);
}

/// Every postorder position of the tree rooted at slot 0 holds one of its
/// slots.
pub proof fn lemma_post_onto(t: TreeArena, q: int)
    requires
        t.wf(),
        t.n() > 0,
        t.size(0) == t.n(),
        0 <= q < t.n(),
    ensures
        exists|y: int| 0 <= y < t.n() && #[trigger] t.post_index(y) == q,
{
    let n = t.n();
    let slots = vstd::set_lib::set_int_range(0, n);
    let f = |y: int| t.post_index(y);
    vstd::set_lib::lemma_int_range(0, n);
    assert forall|x: int, y: int| slots.contains(x) && slots.contains(y) && #[trigger] f(x) == #[trigger] f(y) implies x == y by {
        lemma_depth_le_index(t, x);
        lemma_depth_le_index(t, y);
        lemma_post_block(t, y, x);
        lemma_post_block(t, x, y);
    }
    assert(vstd::relations::injective_on(f, slots));
    vstd::set_lib::lemma_map_size(slots, slots.map(f), f);
    assert forall|p: int| slots.map(f).contains(p) implies slots.contains(p) by {
        let y = choose|y: int| slots.contains(y) && f(y) == p;
        lemma_post_index_range(t, y);
    }
    vstd::set_lib::lemma_subset_equality(slots.map(f), slots);
    assert(slots.contains(q));
    assert(slots.map(f).contains(q));
    let y = choose|y: int| slots.contains(y) && f(y) == q;
    assert(t.post_index(y) == q);
}

/// Computes the shape of the tree rooted at slot 0: its slots in postorder,
/// and the subtree size and depth of each of its slots.
pub fn tree_shape(tree: &TreeArena) -> (shape: TreeShape)
    requires
        tree.wf(),
        tree.n() > 0,
    ensures
        shape_of(*tree, shape),
{
    let n = tree.count();
    let mut sizes: Vec<usize> = Vec::new();
    let mut depths: Vec<usize> = Vec::new();
    let mut i: usize = 0;
    while i < n
        invariant
            i <= n,
            n == tree.n(),
            sizes@.len() == i,
            depths@.len() == i,
        decreases n - i,
    {
        sizes.push(0);
        depths.push(0);
        i = i + 1;
    }
    let mut post: Vec<usize> = Vec::new();
    proof {
        assert(tree.node_ok(0));
    }
    let _ = visit(tree, 0, 0, &mut post, &mut sizes, &mut depths);
    TreeShape { postorder: post, sizes, depths }
}

} // verus!
