use vstd::prelude::*;
use crate::forest::{UnionFind, found, same_model};

verus! {

/// The one failure of the forest: an index outside `0..n`.
#[derive(Debug, Clone, Copy, PartialEq, Eq, Structural)]
pub enum UnionFindError {
    OutOfRange,
}

/// One element of the forest. `par` is the index of its parent; a root is its
/// own parent. `volume` and `edge` are meaningful at roots only.
#[derive(Debug, Clone, Copy, PartialEq, Eq, Structural)]
pub struct Node {
    pub id: usize,
    pub par: usize,
    pub rank: usize,
    pub volume: usize,
    pub edge: usize,
}

/// `x + 1`, held at `usize::MAX`.
pub open spec fn bump(x: usize) -> usize {
    if x < usize::MAX { (x + 1) as usize } else { x }
}

impl Node {
    /// A fresh element: its own root, rank 0, a component of one, no redundant edge.
    pub open spec fn new_spec(id: usize) -> Node {
        Node { id, par: id, rank: 0, volume: 1, edge: 0 }
    }

    /// A fresh element: its own root, rank 0, a component of one, no redundant edge.
    pub fn new(id: usize) -> (r: Node)
        ensures
            r == Node::new_spec(id),
    {
        Node { id, par: id, rank: 0, volume: 1, edge: 0 }
    }

    /// Whether this element is a root.
    pub open spec fn is_root(self) -> bool {
        self.par == self.id
    }

    /// The root record of this element's component in `forest`.
    pub fn root(&self, forest: &mut UnionFind) -> (r: Result<Node, UnionFindError>)
        requires
            old(forest).wf(),
        ensures
            found(*old(forest), *final(forest), self.id as int, r),
    {
        forest.root(self.id)
    }

    /// Joins the tree of root `node` into the tree of root `self`.
    /// Two records of one root record a redundant edge at `self` instead.
    pub fn merge(&mut self, node: &mut Node)
        requires
            old(self).is_root(),
            old(node).is_root(),
            old(self).id != old(node).id ==> old(self).volume + old(node).volume <= usize::MAX,
            old(self).id != old(node).id && old(self).rank == old(node).rank
                ==> old(self).rank < usize::MAX,
        ensures
            old(self).id == old(node).id ==> *final(self) == (Node {
                edge: bump(old(self).edge),
                ..*old(self)
            }) && *final(node) == *old(node),
            old(self).id != old(node).id ==> *final(self) == (Node {
                rank: if old(self).rank == old(node).rank {
                    (old(self).rank + 1) as usize
                } else {
                    old(self).rank
                },
                volume: (old(self).volume + old(node).volume) as usize,
                ..*old(self)
            }) && *final(node) == (Node { par: old(self).id, ..*old(node) }),
    {
        if self.id == node.id {
            if self.edge < usize::MAX {
                self.edge = self.edge + 1;
            }
            return ;
        }
        if self.rank == node.rank {
            self.rank = self.rank + 1;
        }
        self.volume = self.volume + node.volume;
        node.par = self.id;
    }

    /// The size of the component, read at its root.
    pub fn size(&self) -> (r: usize)
        ensures
            r == self.volume,
    {
        self.volume
    }

    /// Whether this element and `node` are in the same component of `forest`.
    pub fn is_same(&self, node: &Node, forest: &mut UnionFind) -> (r: Result<bool, UnionFindError>)
        requires
            old(forest).wf(),
        ensures
            final(forest).wf(),
            (self.id < old(forest).len() && node.id < old(forest).len()) <==> r is Ok,
            r is Ok ==> same_model(*old(forest), *final(forest))
                && r->Ok_0 == old(forest).same(self.id as int, node.id as int),
            r is Err ==> *final(forest) == *old(forest)
                && r == Err::<bool, UnionFindError>(UnionFindError::OutOfRange),
    {
        forest.is_same(self.id, node.id)
    }
}

} // verus!
