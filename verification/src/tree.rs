//! Arena-backed ordered labelled trees.
//!
//! Nodes live in one vector and refer to each other through `NodeId`s.  The
//! arena keeps its nodes in preorder: every subtree occupies a contiguous run
//! of slots, starting at its root.  Besides the links stored in the nodes, the
//! arena carries the (ghost) size and parent of every slot, and `wf` ties the
//! links to them.

use vstd::prelude::*;
use vstd::std_specs::iter::IteratorSpec;

verus! {

/// Identifier of a node: its slot index plus one, so that it is never zero.
#[derive(Debug, Clone, Copy, PartialEq, Eq, Structural)]
pub struct NodeId(pub usize);

impl NodeId {
    /// The slot index of the node.
    pub open spec fn spec_index(&self) -> int {
        self.0 - 1
    }

    /// Whether the id is a valid (non-zero) one.
    pub open spec fn valid(&self) -> bool {
        self.0 != 0
    }

    /// Returns the slot index of the node.
    pub fn index(&self) -> (r: usize)
        requires
            self.valid(),
        ensures
            r == self.spec_index(),
    {
        self.0 - 1
    }

    /// Builds the id from its one-based, non-zero value.
    pub fn from_non_zero_usize(index: usize) -> (r: NodeId)
        requires
            index != 0,
        ensures
            r.valid(),
            r.spec_index() == index - 1,
    {
        NodeId(index)
    }

    /// The one-based value of the id.
    pub fn get(&self) -> (r: usize)
        ensures
            r == self.0,
    {
        self.0
    }
}

/// The id of the node in slot `i`.
pub open spec fn id_of(i: int) -> NodeId {
    NodeId((i + 1) as usize)
}

/// What a slot holds.
#[derive(Debug)]
pub enum NodeData {
    /// Data store
    Data(String),
    /// Next free node position
    NextFree(Option<usize>),
}

/// A node: its label and its links to the neighbouring nodes.
#[derive(Debug)]
pub struct Node {
    pub parent: Option<NodeId>,
    pub previous_sibling: Option<NodeId>,
    pub next_sibling: Option<NodeId>,
    pub first_child: Option<NodeId>,
    pub last_child: Option<NodeId>,
    pub data: NodeData,
}

/// Errors of tree surgery.
#[derive(Debug, Clone, Copy, PartialEq, Eq, Structural)]
pub enum NodeError {
    /// A node cannot be appended to itself.
    AppendSelf,
    /// A node cannot be appended to one of its descendants.
    AppendAncestor,
}

impl Node {
    /// The label text of a node holding data.
    pub open spec fn spec_label(&self) -> Seq<char> {
        match self.data {
            NodeData::Data(s) => s@,
            NodeData::NextFree(_) => Seq::<char>::empty(),
        }
    }

    pub open spec fn holds_data(&self) -> bool {
        self.data is Data
    }

    /// Returns the label of a node that holds data.
    pub fn get(&self) -> (r: &String)
        requires
            self.holds_data(),
        ensures
            r@ == self.spec_label(),
    {
        match &self.data {
            NodeData::Data(data) => data,
            NodeData::NextFree(_) => vstd::pervasive::unreached(),
        }
    }

    /// The label of a node that holds data, to be changed in place; the links
    /// stay as they are.
    pub fn get_mut(&mut self) -> (r: &mut String)
        requires
            old(self).holds_data(),
        ensures
            r@ == old(self).spec_label(),
            final(self).data == NodeData::Data(*final(r)),
            final(self).parent == old(self).parent,
            final(self).previous_sibling == old(self).previous_sibling,
            final(self).next_sibling == old(self).next_sibling,
            final(self).first_child == old(self).first_child,
            final(self).last_child == old(self).last_child,
    {
        match &mut self.data {
            NodeData::Data(data) => data,
            NodeData::NextFree(_) => vstd::pervasive::unreached(),
        }
    }

    /// A detached node holding `data`.
    pub fn new(data: &str) -> (r: Node)
        ensures
            r.holds_data(),
            r.spec_label() == data@,
            r.parent is None,
            r.previous_sibling is None,
            r.next_sibling is None,
            r.first_child is None,
            r.last_child is None,
    {
        Node {
            data: NodeData::Data(data.to_owned()),
            parent: None,
            previous_sibling: None,
            next_sibling: None,
            first_child: None,
            last_child: None,
        }
    }

    pub fn parent(&self) -> (r: Option<NodeId>)
        ensures
            r == self.parent,
    {
        self.parent
    }

    pub fn first_child(&self) -> (r: Option<NodeId>)
        ensures
            r == self.first_child,
    {
        self.first_child
    }

    pub fn last_child(&self) -> (r: Option<NodeId>)
        ensures
            r == self.last_child,
    {
        self.last_child
    }

    pub fn previous_sibling(&self) -> (r: Option<NodeId>)
        ensures
            r == self.previous_sibling,
    {
        self.previous_sibling
    }

    pub fn next_sibling(&self) -> (r: Option<NodeId>)
        ensures
            r == self.next_sibling,
    {
        self.next_sibling
    }

    /// Whether the node has neither parent nor siblings.
    pub fn is_detached(&self) -> (r: bool)
        ensures
            r == (self.parent is None && self.previous_sibling is None && self.next_sibling is None),
    {
        self.parent.is_none() && self.previous_sibling.is_none() && self.next_sibling.is_none()
    }
}

/// The arena.  `sizes` and `parents` describe the shape that the links encode;
/// `reserved` is the node count the storage was created to hold.
pub struct TreeArena {
    nodes: Vec<Node>,
    first_free_slot: Option<usize>,
    last_free_slot: Option<usize>,
    sizes: Ghost<Seq<int>>,
    parents: Ghost<Seq<int>>,
    reserved: Ghost<nat>,
}

/// Optional id of slot `p` (`None` for a negative slot).
pub open spec fn opt_id(p: int) -> Option<NodeId> {
    if p < 0 {
        None
    } else {
        Some(id_of(p))
    }
}

impl TreeArena {
    /// The nodes, slot by slot.
    pub closed spec fn spec_nodes(&self) -> Seq<Node> {
        self.nodes@
    }

    /// Number of nodes in the subtree rooted at each slot.
    pub closed spec fn spec_sizes(&self) -> Seq<int> {
        self.sizes@
    }

    /// Parent slot of each slot, or -1 for a root.
    pub closed spec fn spec_parents(&self) -> Seq<int> {
        self.parents@
    }

    /// Number of nodes the storage was created to hold without growing.
    pub closed spec fn reserved_nodes(&self) -> nat {
        self.reserved@
    }

    pub open spec fn n(&self) -> int {
        self.spec_nodes().len() as int
    }

    pub open spec fn size(&self, i: int) -> int {
        self.spec_sizes()[i]
    }

    pub open spec fn par(&self, i: int) -> int {
        self.spec_parents()[i]
    }

    pub open spec fn label(&self, i: int) -> Seq<char> {
        self.spec_nodes()[i].spec_label()
    }

    /// The shape is a forest laid out in preorder.
    pub open spec fn shape_wf(&self) -> bool {
        let n = self.n();
        &&& self.spec_sizes().len() == n
        &&& self.spec_parents().len() == n
        &&& n < usize::MAX
        &&& n > 0 ==> self.par(0) == -1
        &&& forall|i: int| 0 <= i < n ==> 1 <= #[trigger] self.size(i) && i + self.size(i) <= n
        &&& forall|i: int, j: int|
            #![trigger self.size(i), self.size(j)]
            0 <= i < j < i + self.size(i) && j < n ==> j + self.size(j) <= i + self.size(i)
        &&& forall|i: int|
            0 <= i < n && #[trigger] self.par(i) >= 0 ==> self.par(i) < i && i < self.par(i) + self.size(self.par(i))
        &&& forall|i: int| 0 <= i < n && #[trigger] self.par(i) < 0 ==> self.par(i) == -1
        &&& forall|i: int, j: int|
            #![trigger self.par(i), self.size(j)]
            0 <= j < i < n && self.par(i) == -1 ==> j + self.size(j) <= i
        &&& forall|i: int| 0 <= i < n && 1 < #[trigger] self.size(i) ==> self.par(i + 1) == i
        &&& forall|i: int, j: int|
            #![trigger self.size(i), self.par(j)]
            0 <= i < j < i + self.size(i) && j < n ==> self.par(j) >= i
        &&& forall|i: int|
            #![trigger self.par(i), self.size(i)]
            0 <= i < n && self.par(i) >= 0 && i + self.size(i) < self.par(i) + self.size(self.par(i))
                ==> self.par(i + self.size(i)) == self.par(i)
    }

    /// The links of slot `i` agree with the shape.
    pub open spec fn node_ok(&self, i: int) -> bool {
        let n = self.n();
        let node = self.spec_nodes()[i];
        &&& node.holds_data()
        &&& node.parent == opt_id(self.par(i))
        &&& node.first_child == (if self.size(i) > 1 {
            Some(id_of(i + 1))
        } else {
            None::<NodeId>
        })
        &&& node.next_sibling == (if self.par(i) >= 0 && i + self.size(i) < self.par(i) + self.size(self.par(i)) {
            Some(id_of(i + self.size(i)))
        } else {
            None::<NodeId>
        })
        &&& (self.par(i) < 0 || i == self.par(i) + 1) ==> node.previous_sibling is None
        &&& !(self.par(i) < 0 || i == self.par(i) + 1) ==> (node.previous_sibling matches Some(q) && {
            let j = q.spec_index();
            &&& q.valid()
            &&& 0 <= j < i
            &&& self.par(j) == self.par(i)
            &&& j + self.size(j) == i
        })
        &&& self.size(i) == 1 ==> node.last_child is None
        &&& self.size(i) > 1 ==> (node.last_child matches Some(q) && {
            let j = q.spec_index();
            &&& q.valid()
            &&& i < j < n
            &&& self.par(j) == i
            &&& j + self.size(j) == i + self.size(i)
        })
    }

    /// The links agree with the shape.
    pub open spec fn links_wf(&self) -> bool {
        forall|i: int| 0 <= i < self.n() ==> #[trigger] self.node_ok(i)
    }

    pub open spec fn wf(&self) -> bool {
        self.shape_wf() && self.links_wf()
    }

    /// Number of ancestors of slot `i`.
    pub open spec fn depth(&self, i: int) -> int
        decreases i,
    {
        if i <= 0 || i >= self.n() || self.par(i) < 0 || self.par(i) >= i {
            0
        } else {
            self.depth(self.par(i)) + 1
        }
    }

    /// Zero-based postorder position of slot `i` within the tree holding it.
    pub open spec fn post_index(&self, i: int) -> int {
        i + self.size(i) - 1 - self.depth(i)
    }

    /// Creates a new empty arena.
    pub fn new() -> (r: TreeArena)
        ensures
            r.wf(),
            r.n() == 0,
            r.reserved_nodes() == 0,
    {
        TreeArena {
            nodes: Vec::new(),
            first_free_slot: None,
            last_free_slot: None,
            sizes: Ghost(Seq::empty()),
            parents: Ghost(Seq::empty()),
            reserved: Ghost(0),
        }
    }

    /// Creates a new empty arena whose storage holds at least `n` nodes
    /// before it has to grow.
    pub fn with_capacity(n: usize) -> (r: TreeArena)
        ensures
            r.wf(),
            r.n() == 0,
            r.reserved_nodes() == n,
    {
        TreeArena {
            nodes: Vec::with_capacity(n),
            first_free_slot: None,
            last_free_slot: None,
            sizes: Ghost(Seq::empty()),
            parents: Ghost(Seq::empty()),
            reserved: Ghost(n as nat),
        }
    }

    /// Counts the number of nodes in the arena.
    pub fn count(&self) -> (r: usize)
        ensures
            r == self.n(),
    {
        self.nodes.len()
    }

    /// Returns `true` if the arena has no nodes.
    pub fn is_empty(&self) -> (r: bool)
        ensures
            r == (self.n() == 0),
    {
        self.nodes.len() == 0
    }

    /// The node with the given id, if it is in the arena.
    pub fn get(&self, id: NodeId) -> (r: Option<&Node>)
        requires
            id.valid(),
        ensures
            0 <= id.spec_index() < self.n() ==> r == Some(&self.spec_nodes()[id.spec_index()]),
            !(0 <= id.spec_index() < self.n()) ==> r is None,
    {
        let i = id.index();
        if i < self.nodes.len() {
            Some(&self.nodes[i])
        } else {
            None
        }
    }

    /// The node with the given id, if it is in the arena, to be changed in
    /// place; the sizes and parents the arena records stay as they are.
    pub fn get_mut(&mut self, id: NodeId) -> (r: Option<&mut Node>)
        requires
            id.valid(),
        ensures
            0 <= id.spec_index() < old(self).n() ==> {
                &&& r is Some
                &&& *r->0 == old(self).spec_nodes()[id.spec_index()]
                &&& final(self).spec_nodes() == old(self).spec_nodes().update(id.spec_index(), *final(r->0))
            },
            !(0 <= id.spec_index() < old(self).n()) ==> r is None && *final(self) == *old(self),
            final(self).spec_sizes() == old(self).spec_sizes(),
            final(self).spec_parents() == old(self).spec_parents(),
    {
        let i = id.index();
        if i < self.nodes.len() {
            Some(&mut self.nodes[i])
        } else {
            None
        }
    }

    /// The node in slot `i`, which must exist.
    pub fn node(&self, i: usize) -> (r: &Node)
        requires
            i < self.n(),
        ensures
            *r == self.spec_nodes()[i as int],
    {
        &self.nodes[i]
    }

    /// The id of the first node in storage order, if any; in a tree built
    /// by this library it is the root.
    pub fn get_root_id(&self) -> (r: Option<NodeId>)
        ensures
            self.n() > 0 ==> r == Some(id_of(0)),
            self.n() == 0 ==> r is None,
    {
        if self.nodes.len() > 0 {
            Some(NodeId(1))
        } else {
            None
        }
    }

    /// `Vec::capacity` of the node storage: at least the number of nodes, and
    /// at least the count the storage was created with, since
    /// `Vec::with_capacity` gives at least the requested capacity and a `Vec`
    /// never shrinks on its own (the storage is only pushed to or written in
    /// place); the exact value is the allocator's and is left unstated.
    #[verifier::external_body]
    pub fn capacity(&self) -> (r: usize)
        ensures
            r >= self.n(),
            r >= self.reserved_nodes(),
    {
        self.nodes.capacity()
    }

    /// An iterator over the nodes in storage order.
    pub fn iter(&self) -> (r: std::slice::Iter<'_, Node>)
        ensures
            r.remaining() == self.spec_nodes().as_ref(),
    {
        broadcast use vstd::std_specs::slice::axiom_spec_slice_iter;

        self.nodes.as_slice().iter()
    }

    /// Returns a slice of the nodes in storage order.
    pub fn as_slice(&self) -> (r: &[Node])
        ensures
            r@ == self.spec_nodes(),
    {
        self.nodes.as_slice()
    }

    /// Removes all the nodes.
    pub fn clear(&mut self)
        ensures
            final(self).wf(),
            final(self).n() == 0,
    {
        self.nodes.clear();
        self.first_free_slot = None;
        self.last_free_slot = None;
        self.sizes = Ghost(Seq::empty());
        self.parents = Ghost(Seq::empty());
    }

    /// Creates a new, detached node holding `data`; it becomes the last root.
    #[verifier::spinoff_prover]
    #[verifier::rlimit(30)]
    pub fn new_node(&mut self, data: String) -> (r: NodeId)
        requires
            old(self).wf(),
            old(self).n() < usize::MAX - 1,
        ensures
            final(self).wf(),
            r.valid(),
            r.spec_index() == old(self).n(),
            final(self).n() == old(self).n() + 1,
            final(self).spec_nodes().drop_last() == old(self).spec_nodes(),
            final(self).label(old(self).n()) == data@,
            final(self).size(old(self).n()) == 1,
            final(self).par(old(self).n()) == -1,
            forall|i: int| 0 <= i < old(self).n() ==> #[trigger] final(self).size(i) == old(self).size(i),
            forall|i: int| 0 <= i < old(self).n() ==> #[trigger] final(self).par(i) == old(self).par(i),
            forall|i: int| 0 <= i < old(self).n() ==> #[trigger] final(self).label(i) == old(self).label(i),
    {
        let index = self.nodes.len();
        let node = Node::new(data.as_str());
        self.nodes.push(node);
        self.sizes = Ghost(self.sizes@.push(1));
        self.parents = Ghost(self.parents@.push(-1));
        proof {
            let n = index as int;
            assert(self.spec_nodes().drop_last() =~= old(self).spec_nodes());
            assert forall|i: int, j: int| 0 <= j < i < self.n() && #[trigger] self.par(i) == -1 implies j
                + #[trigger] self.size(j) <= i by {
                assert(self.size(j) == old(self).size(j));
                if i == n {
                    assert(j + old(self).size(j) <= n);
                } else {
                    assert(old(self).par(i) == -1);
                    assert(j + old(self).size(j) <= i);
                }
            }
            assert forall|i: int| 0 <= i < self.n() implies 1 <= #[trigger] self.size(i) && i + self.size(i)
                <= self.n() by {
                if i < n {
                    assert(old(self).size(i) == self.size(i));
                }
            }
            assert forall|i: int, j: int|
                0 <= i < j < i + self.size(i) && j < self.n() implies j + #[trigger] self.size(j) <= i
                + #[trigger] self.size(i) by {
                assert(old(self).size(i) == self.size(i));
                assert(i + old(self).size(i) <= n);
                assert(old(self).size(j) == self.size(j));
            }
            assert forall|i: int| 0 <= i < self.n() && #[trigger] self.par(i) >= 0 implies self.par(i) < i
                && i < self.par(i) + self.size(self.par(i)) by {
                assert(old(self).par(i) == self.par(i));
                assert(old(self).size(old(self).par(i)) == self.size(self.par(i)));
            }
            assert forall|i: int| 0 <= i < self.n() && 1 < #[trigger] self.size(i) implies self.par(i + 1)
                == i by {
                assert(old(self).size(i) == self.size(i));
                assert(old(self).par(i + 1) == self.par(i + 1));
            }
            assert forall|i: int|
                0 <= i < self.n() && self.par(i) >= 0 && i + #[trigger] self.size(i) < self.par(i) + self.size(
                    self.par(i),
                ) implies self.par(i + self.size(i)) == self.par(i) by {
                assert(old(self).size(i) == self.size(i));
                assert(old(self).par(i) == self.par(i));
                assert(old(self).size(old(self).par(i)) == self.size(self.par(i)));
                assert(old(self).par(i + old(self).size(i)) == self.par(i + self.size(i)));
            }
            assert forall|i: int| 0 <= i < self.n() && #[trigger] self.par(i) < 0 implies self.par(i) == -1 by {
                if i < n {
                    assert(old(self).par(i) == self.par(i));
                }
            }
            if n > 0 {
                assert(old(self).par(0) == self.par(0));
            }
            assert forall|i: int, j: int|
                #![trigger self.size(i), self.par(j)]
                0 <= i < j < i + self.size(i) && j < self.n() implies self.par(j) >= i by {
                assert(self.size(i) == old(self).size(i));
                if j < n {
                    assert(old(self).par(j) == self.par(j));
                    assert(old(self).par(j) >= i);
                } else {
                    assert(i + old(self).size(i) <= n);
                }
            }
            assert(self.shape_wf());
            assert forall|i: int| 0 <= i < self.n() implies #[trigger] self.node_ok(i) by {
                if i < n {
                    assert(old(self).node_ok(i));
                    assert(self.spec_nodes()[i] == old(self).spec_nodes()[i]);
                    assert(self.size(i) == old(self).size(i));
                    assert(self.par(i) == old(self).par(i));
                    if old(self).par(i) >= 0 {
                        assert(self.size(self.par(i)) == old(self).size(old(self).par(i)));
                    }
                    let node = old(self).spec_nodes()[i];
                    if node.previous_sibling is Some {
                        let j = node.previous_sibling->Some_0.spec_index();
                        if 0 <= j < n {
                            assert(self.size(j) == old(self).size(j));
                            assert(self.par(j) == old(self).par(j));
                        }
                    }
                    if node.last_child is Some {
                        let j = node.last_child->Some_0.spec_index();
                        if 0 <= j < n {
                            assert(self.size(j) == old(self).size(j));
                            assert(self.par(j) == old(self).par(j));
                        }
                    }
                }
            }
            assert(self.links_wf());
        }
        NodeId(index + 1)
    }
}


impl TreeArena {
    /// Whether slot `a` is `p` or one of its ancestors.
    pub open spec fn is_anc_or_self(&self, a: int, p: int) -> bool {
        0 <= a <= p < a + self.size(a)
    }

    /// Rewrites the links of slot `i`, keeping its label.
    fn set_links(
        &mut self,
        i: usize,
        parent: Option<NodeId>,
        previous_sibling: Option<NodeId>,
        next_sibling: Option<NodeId>,
        first_child: Option<NodeId>,
        last_child: Option<NodeId>,
    )
        requires
            i < old(self).n(),
            old(self).spec_nodes()[i as int].holds_data(),
        ensures
            final(self).n() == old(self).n(),
            final(self).spec_sizes() == old(self).spec_sizes(),
            final(self).spec_parents() == old(self).spec_parents(),
            final(self).spec_nodes()[i as int].holds_data(),
            final(self).spec_nodes()[i as int].spec_label() == old(self).spec_nodes()[i as int].spec_label(),
            final(self).spec_nodes()[i as int].parent == parent,
            final(self).spec_nodes()[i as int].previous_sibling == previous_sibling,
            final(self).spec_nodes()[i as int].next_sibling == next_sibling,
            final(self).spec_nodes()[i as int].first_child == first_child,
            final(self).spec_nodes()[i as int].last_child == last_child,
            forall|j: int| 0 <= j < old(self).n() && j != i ==> #[trigger] final(self).spec_nodes()[j]
                == old(self).spec_nodes()[j],
    {
        let label = self.nodes[i].get().clone();
        let node = Node {
            parent,
            previous_sibling,
            next_sibling,
            first_child,
            last_child,
            data: NodeData::Data(label),
        };
        self.nodes.set(i, node);
    }
}

impl NodeId {
    /// Appends `new_child`, the most recently created node, as the last child
    /// of this node.  This node's subtree must end right before `new_child`,
    /// which keeps the arena in preorder.
    #[verifier::spinoff_prover]
    #[verifier::rlimit(40)]
    pub fn append(self, new_child: NodeId, arena: &mut TreeArena)
        requires
            old(arena).wf(),
            self.valid(),
            new_child.valid(),
            0 <= self.spec_index() < old(arena).n() - 1,
            new_child.spec_index() == old(arena).n() - 1,
            old(arena).par(new_child.spec_index()) == -1,
            old(arena).size(new_child.spec_index()) == 1,
            self.spec_index() + old(arena).size(self.spec_index()) == new_child.spec_index(),
        ensures
            final(arena).wf(),
            final(arena).n() == old(arena).n(),
            forall|i: int| 0 <= i < old(arena).n() ==> #[trigger] final(arena).label(i) == old(arena).label(i),
            final(arena).par(new_child.spec_index()) == self.spec_index(),
            forall|i: int| 0 <= i < old(arena).n() - 1 ==> #[trigger] final(arena).par(i) == old(arena).par(i),
            forall|i: int|
                0 <= i < old(arena).n() ==> #[trigger] final(arena).size(i) == (if old(arena).is_anc_or_self(
                    i,
                    self.spec_index(),
                ) {
                    old(arena).size(i) + 1
                } else {
                    old(arena).size(i)
                }),
    {
        let p = self.0 - 1;
        let c = new_child.0 - 1;
        let ghost old_arena = *arena;
        let ghost n = arena.n();
        proof {
            assert(old_arena.node_ok(c as int));
            assert(old_arena.node_ok(p as int));
            assert(arena.size(p as int) >= 1);
            assert(old_arena.spec_nodes()[c as int].holds_data());
            assert(old_arena.spec_nodes()[p as int].holds_data());
        }
        let last = arena.nodes[p].last_child;
        let p_first = arena.nodes[p].first_child;
        let p_parent = arena.nodes[p].parent;
        let p_prev = arena.nodes[p].previous_sibling;
        let p_next = arena.nodes[p].next_sibling;
        arena.set_links(c, Some(self), last, None, None, None);
        match last {
            Some(l) => {
                proof {
                    assert(arena.size(p as int) > 1);
                    assert(old_arena.spec_nodes()[p as int].last_child == last);
                }
                let li = l.0 - 1;
                proof {
                    assert(old_arena.node_ok(li as int));
                    assert(li != c);
                    assert(li != p);
                    assert(arena.spec_nodes()[li as int] == old_arena.spec_nodes()[li as int]);
                }
                let l_parent = arena.nodes[li].parent;
                let l_prev = arena.nodes[li].previous_sibling;
                let l_first = arena.nodes[li].first_child;
                let l_last = arena.nodes[li].last_child;
                arena.set_links(li, l_parent, l_prev, Some(new_child), l_first, l_last);
                assert(arena.spec_nodes()[p as int].holds_data());
                arena.set_links(p, p_parent, p_prev, p_next, p_first, Some(new_child));
            },
            None => {
                arena.set_links(p, p_parent, p_prev, p_next, Some(new_child), Some(new_child));
            },
        }
        arena.sizes = Ghost(
            Seq::new(
                n as nat,
                |i: int|
                    if old_arena.is_anc_or_self(i, p as int) {
                        old_arena.size(i) + 1
                    } else {
                        old_arena.size(i)
                    },
            ),
        );
        arena.parents = Ghost(old_arena.spec_parents().update(c as int, p as int));
        proof {
            lemma_append_shape(old_arena, *arena, p as int);
            assert forall|i: int| 0 <= i < old_arena.n() implies #[trigger] arena.size(i) == (if old_arena.is_anc_or_self(i, p as int) {
                old_arena.size(i) + 1
            } else {
                old_arena.size(i)
            }) by {}
            assert(append_shape_done(old_arena, *arena, p as int));
            assert forall|i: int| 0 <= i < arena.n() implies #[trigger] arena.spec_nodes()[i].holds_data() by {
                assert(old_arena.node_ok(i));
            }
            assert(self == id_of(p as int));
            assert(new_child == id_of(c as int));
            assert(append_links_done(old_arena, *arena, p as int, last));
            lemma_append_links(old_arena, *arena, p as int, last);
        }
    }
}

/// Every ancestor-or-self of the appending node ends right before the new one.
pub proof fn lemma_anc_end(t: TreeArena, p: int, a: int)
    requires
        t.wf(),
        0 <= p < t.n() - 1,
        t.par(t.n() - 1) == -1,
        p + t.size(p) == t.n() - 1,
        t.is_anc_or_self(a, p),
    ensures
        a + t.size(a) == t.n() - 1,
{
    let n = t.n();
    assert(t.size(p) >= 1);
    if a < p {
        assert(p + t.size(p) <= a + t.size(a));
    }
    assert(a + t.size(a) <= n - 1);
}

proof fn lemma_append_shape(old_arena: TreeArena, t: TreeArena, p: int)
    requires
        old_arena.wf(),
        0 <= p < old_arena.n() - 1,
        old_arena.par(old_arena.n() - 1) == -1,
        old_arena.size(old_arena.n() - 1) == 1,
        p + old_arena.size(p) == old_arena.n() - 1,
        t.n() == old_arena.n(),
        t.spec_sizes() == Seq::new(
            old_arena.n() as nat,
            |i: int|
                if old_arena.is_anc_or_self(i, p) {
                    old_arena.size(i) + 1
                } else {
                    old_arena.size(i)
                },
        ),
        t.spec_parents() == old_arena.spec_parents().update(old_arena.n() - 1, p),
    ensures
        t.shape_wf(),
{
    let n = t.n();
    let c = n - 1;
    let o = old_arena;
    assert(!o.is_anc_or_self(c, p));
    assert forall|i: int| 0 <= i < n implies 1 <= #[trigger] t.size(i) && i + t.size(i) <= n by {
        assert(o.size(i) >= 1);
        if o.is_anc_or_self(i, p) {
            lemma_anc_end(o, p, i);
        }
    }
    assert forall|i: int, j: int|
        #![trigger t.size(i), t.size(j)]
        0 <= i < j < i + t.size(i) && j < n implies j + t.size(j) <= i + t.size(i) by {
        assert(o.size(i) >= 1 && o.size(j) >= 1);
        if o.is_anc_or_self(i, p) {
            lemma_anc_end(o, p, i);
            if j == c {
            } else {
                assert(j < i + o.size(i));
                assert(j + o.size(j) <= i + o.size(i));
                if o.is_anc_or_self(j, p) {
                    lemma_anc_end(o, p, j);
                }
            }
        } else {
            if j == c {
                assert(i + o.size(i) <= c);
            } else {
                assert(j + o.size(j) <= i + o.size(i));
                if o.is_anc_or_self(j, p) {
                    assert(false);
                }
            }
        }
    }
    assert forall|i: int| 0 <= i < n && #[trigger] t.par(i) >= 0 implies t.par(i) < i && i < t.par(i)
        + t.size(t.par(i)) by {
        if i == c {
            lemma_anc_end(o, p, p);
            assert(o.is_anc_or_self(p, p));
        } else {
            let q = o.par(i);
            assert(o.size(q) >= 1);
        }
    }
    assert forall|i: int| 0 <= i < n && #[trigger] t.par(i) < 0 implies t.par(i) == -1 by {
        if i != c {
            assert(o.par(i) < 0);
        }
    }
    assert forall|i: int, j: int|
        #![trigger t.par(i), t.size(j)]
        0 <= j < i < n && t.par(i) == -1 implies j + t.size(j) <= i by {
        assert(i != c);
        assert(o.par(i) == -1);
        assert(j + o.size(j) <= i);
        assert(o.size(j) >= 1);
        if o.is_anc_or_self(j, p) {
            lemma_anc_end(o, p, j);
        }
    }
    assert forall|i: int| 0 <= i < n && 1 < #[trigger] t.size(i) implies t.par(i + 1) == i by {
        assert(o.size(i) >= 1);
        if o.size(i) > 1 {
            assert(o.par(i + 1) == i);
            if i + 1 == c {
                assert(i + o.size(i) <= c);
            }
        } else {
            assert(o.is_anc_or_self(i, p));
            assert(i == p);
        }
    }
    assert forall|i: int, j: int|
        #![trigger t.size(i), t.par(j)]
        0 <= i < j < i + t.size(i) && j < n implies t.par(j) >= i by {
        assert(o.size(i) >= 1);
        if j == c {
            assert(o.is_anc_or_self(i, p));
        } else {
            if o.is_anc_or_self(i, p) {
                lemma_anc_end(o, p, i);
            }
            assert(o.par(j) >= i);
        }
    }
    assert forall|i: int|
        #![trigger t.par(i), t.size(i)]
        0 <= i < n && t.par(i) >= 0 && i + t.size(i) < t.par(i) + t.size(t.par(i)) implies t.par(
        i + t.size(i),
    ) == t.par(i) by {
        let q = t.par(i);
        assert(i != c);
        assert(q == o.par(i));
        assert(o.size(i) >= 1 && o.size(q) >= 1);
        if o.is_anc_or_self(i, p) {
            lemma_anc_end(o, p, i);
            assert(o.is_anc_or_self(q, p));
            lemma_anc_end(o, p, q);
        } else if o.is_anc_or_self(q, p) {
            lemma_anc_end(o, p, q);
            if i + o.size(i) < q + o.size(q) {
                assert(o.par(i + o.size(i)) == q);
            } else {
                // `i` ends where its parent does, so it is the parent's last
                // child and ends right before the new node.
                if p < i {
                    assert(o.par(i) >= p);
                    assert(q == p);
                } else {
                    assert(false);
                }
            }
        } else {
            assert(o.par(i + o.size(i)) == q);
            assert(i + o.size(i) < c);
        }
    }
}

/// What `append` leaves in the nodes, as `lemma_append_links` takes it.
pub open spec fn append_links_done(o: TreeArena, t: TreeArena, p: int, last: Option<NodeId>) -> bool {
    let c = o.n() - 1;
    &&& last == o.spec_nodes()[p].last_child
    &&& forall|i: int| 0 <= i < t.n() ==> #[trigger] t.spec_nodes()[i].holds_data()
    &&& ({
        let nc = t.spec_nodes()[c];
        &&& nc.parent == Some(id_of(p))
        &&& nc.previous_sibling == last
        &&& nc.next_sibling is None
        &&& nc.first_child is None
        &&& nc.last_child is None
    })
    &&& ({
        let np = t.spec_nodes()[p];
        let op = o.spec_nodes()[p];
        &&& np.parent == op.parent
        &&& np.previous_sibling == op.previous_sibling
        &&& np.next_sibling == op.next_sibling
        &&& np.first_child == (if last is None { Some(id_of(c)) } else { op.first_child })
        &&& np.last_child == Some(id_of(c))
    })
    &&& (last matches Some(l) ==> ({
        let li = l.spec_index();
        let nl = t.spec_nodes()[li];
        let ol = o.spec_nodes()[li];
        &&& nl.parent == ol.parent
        &&& nl.previous_sibling == ol.previous_sibling
        &&& nl.next_sibling == Some(id_of(c))
        &&& nl.first_child == ol.first_child
        &&& nl.last_child == ol.last_child
    }))
    &&& forall|i: int|
        0 <= i < c && i != p && (last matches Some(l) ==> i != l.spec_index()) ==> #[trigger] t.spec_nodes()[i]
            == o.spec_nodes()[i]
}

pub open spec fn append_shape_done(o: TreeArena, t: TreeArena, p: int) -> bool {
    &&& o.wf()
    &&& t.shape_wf()
    &&& 0 <= p < o.n() - 1
    &&& o.par(o.n() - 1) == -1
    &&& o.size(o.n() - 1) == 1
    &&& p + o.size(p) == o.n() - 1
    &&& t.n() == o.n()
    &&& forall|i: int|
        0 <= i < o.n() ==> #[trigger] t.size(i) == (if o.is_anc_or_self(i, p) {
            o.size(i) + 1
        } else {
            o.size(i)
        })
    &&& t.spec_parents() == o.spec_parents().update(o.n() - 1, p)
}

proof fn lemma_append_node_new(o: TreeArena, t: TreeArena, p: int, last: Option<NodeId>)
    requires
        append_shape_done(o, t, p),
        append_links_done(o, t, p, last),
    ensures
        t.node_ok(o.n() - 1),
{
    let c = o.n() - 1;
    lemma_anc_end(o, p, p);
    assert(o.is_anc_or_self(p, p));
    assert(o.node_ok(p));
    assert(!o.is_anc_or_self(c, p));
    assert(t.par(c) == p);
    if o.size(p) > 1 {
        let l = last->Some_0;
        let li = l.spec_index();
        assert(o.par(li) == p);
        assert(o.size(li) >= 1);
        assert(!o.is_anc_or_self(li, p));
        assert(t.par(li) == p);
    }
}

proof fn lemma_append_node_parent(o: TreeArena, t: TreeArena, p: int, last: Option<NodeId>)
    requires
        append_shape_done(o, t, p),
        append_links_done(o, t, p, last),
    ensures
        t.node_ok(p),
{
    let c = o.n() - 1;
    assert(o.is_anc_or_self(p, p));
    assert(o.node_ok(p));
    lemma_anc_end(o, p, p);
    assert(t.par(p) == o.par(p));
    if o.par(p) >= 0 {
        let q = o.par(p);
        assert(o.size(q) >= 1);
        assert(o.is_anc_or_self(q, p));
        lemma_anc_end(o, p, q);
    }
    let on = o.spec_nodes()[p];
    if !(o.par(p) < 0 || p == o.par(p) + 1) {
        let j = on.previous_sibling->Some_0.spec_index();
        assert(o.size(j) >= 1);
        assert(!o.is_anc_or_self(j, p));
        assert(t.par(j) == o.par(j));
    }
    assert(t.par(c) == p);
    assert(!o.is_anc_or_self(c, p));
    assert(t.size(c) == 1);
    assert(id_of(c).spec_index() == c);
    assert(t.size(p) == o.size(p) + 1);
    if last is None {
        assert(o.size(p) == 1);
    } else {
        assert(o.size(p) > 1);
    }
}

proof fn lemma_append_node_last(o: TreeArena, t: TreeArena, p: int, last: Option<NodeId>)
    requires
        append_shape_done(o, t, p),
        append_links_done(o, t, p, last),
        last is Some,
    ensures
        t.node_ok(last->Some_0.spec_index()),
{
    let c = o.n() - 1;
    assert(o.is_anc_or_self(p, p));
    assert(o.node_ok(p));
    let i = last->Some_0.spec_index();
    assert(o.node_ok(i));
    assert(o.par(i) == p);
    assert(t.par(i) == p);
    assert(o.size(i) >= 1);
    assert(!o.is_anc_or_self(i, p));
    lemma_anc_end(o, p, p);
    let on = o.spec_nodes()[i];
    if !(o.par(i) < 0 || i == o.par(i) + 1) {
        let j = on.previous_sibling->Some_0.spec_index();
        assert(o.size(j) >= 1);
        assert(!o.is_anc_or_self(j, p));
        assert(t.par(j) == o.par(j));
    }
    if o.size(i) > 1 {
        let j = on.last_child->Some_0.spec_index();
        assert(o.size(j) >= 1);
        assert(!o.is_anc_or_self(j, p));
        assert(t.par(j) == o.par(j));
    }
}

proof fn lemma_append_node_other(o: TreeArena, t: TreeArena, p: int, last: Option<NodeId>, i: int)
    requires
        append_shape_done(o, t, p),
        append_links_done(o, t, p, last),
        0 <= i < o.n() - 1,
        i != p,
        last matches Some(l) ==> i != l.spec_index(),
    ensures
        t.node_ok(i),
{
    let c = o.n() - 1;
    assert(o.node_ok(i));
    assert(o.node_ok(p));
    let on = o.spec_nodes()[i];
    assert(t.spec_nodes()[i] == on);
    assert(t.par(i) == o.par(i));
    assert(o.size(i) >= 1);
    if o.is_anc_or_self(i, p) {
        lemma_anc_end(o, p, i);
        assert(i < p);
        assert(o.size(i) > 1);
        let j = on.last_child->Some_0.spec_index();
        assert(o.size(j) >= 1);
        assert(o.par(j) == i);
        assert(o.is_anc_or_self(j, p)) by {
            assert(p < j + o.size(j));
            if p < j {
                assert(o.par(j) >= p);
                assert(false);
            }
        }
        lemma_anc_end(o, p, j);
        assert(t.par(j) == o.par(j));
        if o.par(i) >= 0 {
            let q = o.par(i);
            assert(o.size(q) >= 1);
            assert(o.is_anc_or_self(q, p));
            lemma_anc_end(o, p, q);
        }
        if !(o.par(i) < 0 || i == o.par(i) + 1) {
            let j2 = on.previous_sibling->Some_0.spec_index();
            assert(o.size(j2) >= 1);
            assert(!o.is_anc_or_self(j2, p));
            assert(t.par(j2) == o.par(j2));
        }
    } else {
        if o.par(i) >= 0 {
            let q = o.par(i);
            assert(o.size(q) >= 1);
            if o.is_anc_or_self(q, p) {
                lemma_anc_end(o, p, q);
                if i + o.size(i) == c {
                    if p < i {
                        assert(o.par(i) >= p);
                        assert(q == p);
                        assert(o.size(p) > 1);
                        let l = last->Some_0;
                        let li = l.spec_index();
                        assert(o.node_ok(p));
                        assert(o.par(li) == p);
                        assert(li + o.size(li) == c);
                        assert(o.size(li) >= 1);
                        if li < i {
                            assert(i + o.size(i) <= li + o.size(li));
                            assert(o.par(i) >= li);
                        } else if li > i {
                            assert(li + o.size(li) <= i + o.size(i));
                            assert(o.par(li) >= i);
                        }
                        assert(false);
                    } else {
                        assert(false);
                    }
                }
            } else {
                assert(o.par(i + o.size(i)) == q || i + o.size(i) >= q + o.size(q));
            }
        }
        if !(o.par(i) < 0 || i == o.par(i) + 1) {
            let j2 = on.previous_sibling->Some_0.spec_index();
            assert(o.size(j2) >= 1);
            if o.is_anc_or_self(j2, p) {
                lemma_anc_end(o, p, j2);
            }
            assert(t.par(j2) == o.par(j2));
        }
        if o.size(i) > 1 {
            let j = on.last_child->Some_0.spec_index();
            assert(o.size(j) >= 1);
            if o.is_anc_or_self(j, p) {
                assert(j <= p && p < j + o.size(j));
                assert(o.is_anc_or_self(i, p));
            }
            assert(t.par(j) == o.par(j));
        }
    }
}

proof fn lemma_append_links(o: TreeArena, t: TreeArena, p: int, last: Option<NodeId>)
    requires
        append_shape_done(o, t, p),
        append_links_done(o, t, p, last),
    ensures
        t.links_wf(),
{
    let c = o.n() - 1;
    assert forall|i: int| 0 <= i < t.n() implies #[trigger] t.node_ok(i) by {
        if i == c {
            lemma_append_node_new(o, t, p, last);
        } else if i == p {
            lemma_append_node_parent(o, t, p, last);
        } else if last.is_some() && i == last->Some_0.spec_index() {
            lemma_append_node_last(o, t, p, last);
        } else {
            lemma_append_node_other(o, t, p, last, i);
        }
    }
}

/// The `j`-th ancestor-or-self of slot `i`: `i` itself, its parent, and so on.
pub open spec fn anc_slot(t: TreeArena, i: int, j: nat) -> int
    decreases j,
{
    if j == 0 {
        i
    } else {
        t.par(anc_slot(t, i, (j - 1) as nat))
    }
}

impl NodeId {
    /// This node and its ancestors, from the node up to its root.
    pub fn ancestors(self, arena: &TreeArena) -> (r: Vec<NodeId>)
        requires
            arena.wf(),
            self.valid(),
            0 <= self.spec_index() < arena.n(),
        ensures
            r@.len() == arena.depth(self.spec_index()) + 1,
            forall|j: int| 0 <= j < r@.len() ==> #[trigger] r@[j] == id_of(anc_slot(*arena, self.spec_index(), j as nat)),
            arena.par(anc_slot(*arena, self.spec_index(), (r@.len() - 1) as nat)) == -1,
    {
        let ghost i = self.spec_index();
        let mut out: Vec<NodeId> = Vec::new();
        out.push(self);
        let mut cur = self.index();
        loop
            invariant_except_break
                arena.wf(),
                0 <= i < arena.n(),
                cur < arena.n(),
                out@.len() >= 1,
                cur == anc_slot(*arena, i, (out@.len() - 1) as nat),
                arena.depth(i) == out@.len() - 1 + arena.depth(cur as int),
                forall|j: int| 0 <= j < out@.len() ==> #[trigger] out@[j] == id_of(anc_slot(*arena, i, j as nat)),
            ensures
                out@.len() == arena.depth(i) + 1,
                forall|j: int| 0 <= j < out@.len() ==> #[trigger] out@[j] == id_of(anc_slot(*arena, i, j as nat)),
                arena.par(anc_slot(*arena, i, (out@.len() - 1) as nat)) == -1,
            decreases cur,
        {
            proof {
                assert(arena.node_ok(cur as int));
            }
            match arena.node(cur).parent {
                Some(p) => {
                    let pi = p.index();
                    proof {
                        assert(arena.par(cur as int) == pi);
                        assert(pi < cur);
                        assert(anc_slot(*arena, i, out@.len() as nat) == pi);
                    }
                    out.push(p);
                    cur = pi;
                },
                None => {
                    proof {
                        assert(arena.par(cur as int) == -1);
                        assert(arena.depth(cur as int) == 0);
                    }
                    break;
                },
            }
        }
        out
    }

    /// This node and its descendants, in preorder.
    pub fn descendants(self, arena: &TreeArena) -> (r: Vec<NodeId>)
        requires
            arena.wf(),
            self.valid(),
            0 <= self.spec_index() < arena.n(),
        ensures
            r@.len() == arena.size(self.spec_index()),
            forall|j: int| 0 <= j < r@.len() ==> #[trigger] r@[j] == id_of(self.spec_index() + j),
    {
        let i = self.index();
        let mut last = i;
        loop
            invariant_except_break
                arena.wf(),
                i < arena.n(),
                i <= last < arena.n(),
                last + arena.size(last as int) == i + arena.size(i as int),
            ensures
                i <= last < arena.n(),
                last + 1 == i + arena.size(i as int),
            decreases arena.n() - last,
        {
            proof {
                assert(arena.node_ok(last as int));
            }
            match arena.node(last).last_child {
                Some(c) => {
                    last = c.index();
                },
                None => {
                    break;
                },
            }
        }
        let mut out: Vec<NodeId> = Vec::new();
        let mut j = i;
        while j <= last
            invariant
                i <= j <= last + 1,
                last < arena.n(),
                arena.n() < usize::MAX,
                out@.len() == j - i,
                forall|m: int| 0 <= m < out@.len() ==> #[trigger] out@[m] == id_of(i + m),
            decreases last + 1 - j,
        {
            out.push(NodeId(j + 1));
            j = j + 1;
        }
        out
    }

    /// Appends `new_child` as the last child of this node, as `append` does;
    /// appending a node to itself is refused.
    pub fn checked_append(self, new_child: NodeId, arena: &mut TreeArena) -> (r: Result<(), NodeError>)
        requires
            old(arena).wf(),
            self.valid(),
            new_child.valid(),
            new_child != self ==> {
                &&& 0 <= self.spec_index() < old(arena).n() - 1
                &&& new_child.spec_index() == old(arena).n() - 1
                &&& old(arena).par(new_child.spec_index()) == -1
                &&& old(arena).size(new_child.spec_index()) == 1
                &&& self.spec_index() + old(arena).size(self.spec_index()) == new_child.spec_index()
            },
        ensures
            new_child == self ==> r == Err::<(), NodeError>(NodeError::AppendSelf) && *final(arena) == *old(arena),
            new_child != self ==> {
                &&& r is Ok
                &&& final(arena).wf()
                &&& final(arena).n() == old(arena).n()
                &&& forall|i: int| 0 <= i < old(arena).n() ==> #[trigger] final(arena).label(i) == old(arena).label(i)
                &&& final(arena).par(new_child.spec_index()) == self.spec_index()
                &&& forall|i: int| 0 <= i < old(arena).n() - 1 ==> #[trigger] final(arena).par(i) == old(arena).par(i)
                &&& forall|i: int|
                    0 <= i < old(arena).n() ==> #[trigger] final(arena).size(i) == (if old(arena).is_anc_or_self(
                        i,
                        self.spec_index(),
                    ) {
                        old(arena).size(i) + 1
                    } else {
                        old(arena).size(i)
                    })
            },
    {
        if new_child.0 == self.0 {
            return Err(NodeError::AppendSelf);
        }
        self.append(new_child, arena);
        Ok(())
    }
}

} // verus!
