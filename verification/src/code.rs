//! The tree-structured code document: an arena of nodes addressed by
//! sequential integer ids.  The root is a program node that groups its
//! children; ids are handed out in insertion order, so the arena is a vector
//! indexed by id.

use vstd::prelude::*;

verus! {

/// The address of a node in a `Code` arena.
pub type NodeId = usize;

/// The child list of a program node.
pub type Group = Vec<NodeId>;

/// A colour a pixel node can take.
#[derive(Clone, Copy, PartialEq, Eq, Structural, Debug)]
pub enum Color {
    Red,
    Green,
    Blue,
}

/// One node of the document.
pub enum Node {
    /// A node that groups child nodes.
    Program(Group),
    /// A coloured pixel at a position.
    Pixel { position: (usize, usize), color: Color },
}

/// A node placed in the arena, with its parent link.
pub struct PlacedNode {
    pub parent: Option<NodeId>,
    pub node: Node,
}

impl PlacedNode {
    /// The parent link.
    pub open spec fn spec_parent(self) -> Option<NodeId> {
        self.parent
    }
}

/// The document: nodes addressed by id, id 0 being the root group.
pub struct Code {
    nodes: Vec<PlacedNode>,
    root: NodeId,
}

impl Node {
    /// The mutable child list, for a program node only.
    pub fn group_mut(&mut self) -> (r: Option<&mut Group>)
        ensures
            match r {
                Some(g) => *old(self) matches Node::Program(g0) && *g == g0 && *final(self)
                    == (Node::Program(*final(g))),
                None => *final(self) == *old(self) && !(*old(self) is Program),
            },
    {
        match self {
            Node::Program(ref mut group) => Some(group),
            _ => None,
        }
    }
}

impl PlacedNode {
    /// The id of the node this one sits under, if it is not the root.
    pub fn parent(&self) -> (r: Option<NodeId>)
        ensures
            r == self.spec_parent(),
    {
        self.parent
    }
}

impl Code {
    /// Ids are assigned in insertion order and the root is node 0.
    pub closed spec fn wf(self) -> bool {
        &&& self.root == 0
        &&& self.nodes@.len() >= 1
        &&& self.nodes@[0].parent is None
        &&& self.nodes@[0].node is Program
    }

    /// How many nodes the arena holds.
    pub closed spec fn spec_len(self) -> nat {
        self.nodes@.len()
    }

    /// The node with id `i`.
    pub closed spec fn node_at(self, i: int) -> PlacedNode {
        self.nodes@[i]
    }

    /// The id of the root group.
    pub closed spec fn spec_root(self) -> NodeId {
        self.root
    }

    /// A document holding only an empty root group.
    pub fn new() -> (r: Self)
        ensures
            r.wf(),
            r.spec_len() == 1,
            r.spec_root() == 0,
            r.node_at(0).spec_parent() is None,
            r.node_at(0).node matches Node::Program(g) && g@ == Seq::<NodeId>::empty(),
    {
        let mut nodes: Vec<PlacedNode> = Vec::new();
        nodes.push(PlacedNode { node: Node::Program(Vec::new()), parent: None });
        Self { nodes, root: 0 }
    }

    /// The node with this id, if it exists.
    pub fn get(&self, node_id: NodeId) -> (r: Option<&PlacedNode>)
        ensures
            match r {
                Some(n) => node_id < self.spec_len() && *n == self.node_at(node_id as int),
                None => node_id >= self.spec_len(),
            },
    {
        if node_id < self.nodes.len() {
            Some(&self.nodes[node_id])
        } else {
            None
        }
    }

    /// Insert a node into a particular node group.  Returns the new node's
    /// id, or `None`, leaving the document unchanged, when `group` does not
    /// name a program node.
    pub fn insert(&mut self, node: Node, group: NodeId) -> (r: Option<NodeId>)
        requires
            old(self).wf(),
            old(self).spec_len() < usize::MAX,
        ensures
            final(self).wf(),
            r is Some <==> (group < old(self).spec_len() && old(self).node_at(
                group as int,
            ).node is Program),
            match r {
                Some(id) => {
                    &&& id == old(self).spec_len()
                    &&& final(self).spec_len() == old(self).spec_len() + 1
                    &&& final(self).node_at(id as int).node == node
                    &&& final(self).node_at(id as int).spec_parent() == Some(group)
                    &&& final(self).node_at(group as int).spec_parent() == old(self).node_at(
                        group as int,
                    ).spec_parent()
                    &&& old(self).node_at(group as int).node matches Node::Program(g1)
                        && final(self).node_at(group as int).node matches Node::Program(g2)
                        && g2@ == g1@.push(id)
                    &&& forall|t: int|
                        0 <= t < old(self).spec_len() && t != group ==> final(self).node_at(t)
                            == old(self).node_at(t)
                },
                None => *final(self) == *old(self),
            },
    {
        if group >= self.nodes.len() {
            return None;
        }
        let is_program = match &self.nodes[group].node {
            Node::Program(_) => true,
            _ => false,
        };
        if !is_program {
            return None;
        }
        let id = self.nodes.len();
        self.nodes.push(PlacedNode { node, parent: Some(group) });
        let slot = &mut self.nodes[group];
        match slot.node.group_mut() {
            Some(children) => {
                children.push(id);
            },
            None => {},
        }
        proof {
            assert(final(self).nodes@[0].parent is None);
            assert(final(self).nodes@[0].node is Program);
            assert forall|t: int|
                0 <= t < old(self).spec_len() && t != group implies final(self).node_at(t)
                == old(self).node_at(t) by {}
        }
        Some(id)
    }

    /// The id of the root group.
    pub fn root(&self) -> (r: NodeId)
        ensures
            r == self.spec_root(),
            self.wf() ==> r == 0,
    {
        self.root
    }
}

} // verus!
