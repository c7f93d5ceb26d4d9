//! A single record of the tree: its bounding region, its parent link,
//! and either child handles (internal node) or a payload (leaf).
//!
//! The mutators do not themselves preserve the tree-wide invariants
//! (parent/child containment and parent links); the tree calls them in
//! the correct order and re-establishes its invariant around them.  Their
//! names carry `unchecked` to reflect that their preconditions are
//! tree-wide, not local.

use vstd::prelude::*;

use crate::geometry::region::{region_union, Region};
use crate::rtree::arena::Index;

verus! {

/// One node of the tree.  A node is a leaf exactly when it carries data.
#[derive(Debug)]
pub struct Node<ND> {
    /// The minimum bounding region enclosing everything beneath this node.
    pub minimum_bounding_region: Region,
    /// The handles of the direct children of this node.
    pub children: Vec<Index>,
    /// The payload, present exactly on leaves.
    pub data: Option<ND>,
    /// The handle of the parent node, absent only for the root.
    pub parent: Option<Index>,
}

impl<ND> Node<ND> {
    /// Creates a new childless internal node.
    pub(crate) fn new_internal_node(minimum_bounding_region: Region, parent: Option<Index>) -> (n:
        Self)
        ensures
            n.minimum_bounding_region == minimum_bounding_region,
            n.children@ == Seq::<Index>::empty(),
            n.data is None,
            n.parent == parent,
    {
        Node { minimum_bounding_region, children: Vec::new(), data: None, parent }
    }

    /// Creates a new leaf node carrying `data`.
    pub(crate) fn new_leaf(minimum_bounding_region: Region, data: ND, parent: Option<Index>) -> (n:
        Self)
        ensures
            n.minimum_bounding_region == minimum_bounding_region,
            n.children@ == Seq::<Index>::empty(),
            n.data == Some(data),
            n.parent == parent,
    {
        Node { minimum_bounding_region, children: Vec::new(), data: Some(data), parent }
    }

    /// Whether this node is a leaf, i.e. carries a payload.
    pub fn is_leaf(&self) -> (b: bool)
        ensures
            b == (self.data is Some),
    {
        self.data.is_some()
    }

    /// Whether this node has any children.
    pub fn has_children(&self) -> (b: bool)
        ensures
            b == (self.children@.len() > 0),
    {
        self.children.len() > 0
    }

    /// The number of direct children of this node.
    pub fn child_count(&self) -> (n: usize)
        ensures
            n == self.children@.len(),
    {
        self.children.len()
    }

    /// A reference to the minimum bounding region of this node.
    pub fn get_region(&self) -> (r: &Region)
        ensures
            *r == self.minimum_bounding_region,
    {
        &self.minimum_bounding_region
    }

    /// The handles of the direct children of this node, in order.
    pub fn child_index_iter(&self) -> (v: Vec<Index>)
        ensures
            v@ == self.children@,
    {
        let mut v: Vec<Index> = Vec::new();
        let mut i: usize = 0;
        while i < self.children.len()
            invariant
                i <= self.children@.len(),
                v@ == self.children@.take(i as int),
            decreases self.children@.len() - i,
        {
            v.push(self.children[i]);
            proof {
                assert(v@ =~= self.children@.take(i + 1));
            }
            i += 1;
        }
        proof {
            assert(v@ =~= self.children@);
        }
        v
    }

    /// The child handle at position `k`.
    pub fn child_at(&self, k: usize) -> (c: Index)
        requires
            k < self.children@.len(),
        ensures
            c == self.children@[k as int],
    {
        self.children[k]
    }

    /// A reference to the payload, present exactly on leaves.
    pub fn get_data(&self) -> (d: Option<&ND>)
        ensures
            match d {
                Some(v) => self.data == Some(*v),
                None => self.data is None,
            },
    {
        self.data.as_ref()
    }

    /// The handle of the parent node, absent only for the root.
    pub fn get_parent(&self) -> (p: Option<Index>)
        ensures
            p == self.parent,
    {
        self.parent
    }

    /// Enlarges this node's bounding region in place to also cover
    /// `region`.  Tree-wide precondition: the parent's region must
    /// already cover the enlargement.
    pub(crate) fn combine_region_unchecked(&mut self, region: &Region)
        requires
            old(self).minimum_bounding_region@.len() == region@.len(),
        ensures
            final(self).minimum_bounding_region@ == region_union(
                old(self).minimum_bounding_region@,
                region@,
            ),
            final(self).children == old(self).children,
            final(self).data == old(self).data,
            final(self).parent == old(self).parent,
    {
        match self.minimum_bounding_region.combine_region_in_place(region) {
            Ok(()) => (),
            Err(_) => {
                proof {
                    assert(false);
                }
            },
        }
    }

    /// Replaces this node's child list, which must be empty.  Tree-wide
    /// precondition: every handle in `children` already has its parent
    /// set to this node.
    pub(crate) fn set_children_unchecked(&mut self, children: Vec<Index>)
        requires
            old(self).children@.len() == 0,
        ensures
            final(self).children == children,
            final(self).minimum_bounding_region == old(self).minimum_bounding_region,
            final(self).data == old(self).data,
            final(self).parent == old(self).parent,
    {
        self.children = children;
    }

    /// Appends one child handle.  Tree-wide precondition: the child's
    /// parent is set to this node and its region is covered.
    pub(crate) fn add_child_unchecked(&mut self, child_index: Index)
        ensures
            final(self).children@ == old(self).children@.push(child_index),
            final(self).minimum_bounding_region == old(self).minimum_bounding_region,
            final(self).data == old(self).data,
            final(self).parent == old(self).parent,
    {
        self.children.push(child_index);
    }

    /// Updates the parent link of this node.
    pub(crate) fn set_parent(&mut self, index: Index)
        ensures
            final(self).parent == Some(index),
            final(self).minimum_bounding_region == old(self).minimum_bounding_region,
            final(self).children == old(self).children,
            final(self).data == old(self).data,
    {
        self.parent = Some(index);
    }

    /// Overwrites this node's bounding region.  Tree-wide precondition:
    /// the new region covers the children and is covered by the parent.
    pub(crate) fn set_minimum_bounding_region_unchecked(&mut self, minimum_bounding_region: Region)
        ensures
            final(self).minimum_bounding_region == minimum_bounding_region,
            final(self).children == old(self).children,
            final(self).data == old(self).data,
            final(self).parent == old(self).parent,
    {
        self.minimum_bounding_region = minimum_bounding_region;
    }

    /// Removes and returns all children of this node.
    pub(crate) fn clear_children(&mut self) -> (v: Vec<Index>)
        ensures
            v == old(self).children,
            final(self).children@ == Seq::<Index>::empty(),
            final(self).minimum_bounding_region == old(self).minimum_bounding_region,
            final(self).data == old(self).data,
            final(self).parent == old(self).parent,
    {
        let mut buffer: Vec<Index> = Vec::new();
        core::mem::swap(&mut buffer, &mut self.children);
        buffer
    }
}

} // verus!
