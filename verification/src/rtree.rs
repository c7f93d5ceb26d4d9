//! The R-tree: a height-balanced index over regions, held in an arena of
//! nodes addressed by stable handles.
//!
//! The structural invariant [`RTree::inv`] holds after every public
//! operation.  It states, over the mathematical model of the tree:
//!
//! - there is exactly one root, which has no parent, and every non-root
//!   node's parent lists it among its children (parent links);
//! - every listed child's parent link points back, and a node's children
//!   are pairwise distinct;
//! - every node's bounding region contains the bounding region of each
//!   of its children (parent containment);
//! - every non-root internal node has between `min_children` and
//!   `max_children` children (fanout);
//! - a ghost height labelling decreases by exactly one from parent to
//!   child and reaches zero exactly at leaves, which makes the tree
//!   acyclic and all leaves equally deep (balance).

use vstd::prelude::*;

use crate::geometry::region::{region_contains, region_wf, Region};
use crate::rtree::arena::{Arena, Index};
use crate::rtree::node::Node;

pub mod arena;
mod insert;
mod lookup;
pub mod model;
pub mod node;
pub mod rendering;
mod split;

verus! {

/// An R-tree mapping regions to payloads of type `ND`.
pub struct RTree<ND> {
    /// Nodes are stored in a generational arena.
    nodes: Arena<Node<ND>>,
    /// The handle of the root node of this tree.
    root: Index,
    /// The minimum number of children a non-root internal node can have.
    min_children: usize,
    /// The maximum number of children a node can have.
    max_children: usize,
    /// Ghost labelling of every node with its height: the number of
    /// edges from the node down to any leaf beneath it.
    heights: Ghost<Seq<int>>,
}

impl<ND> RTree<ND> {
    /// The nodes of the tree, in allocation order.
    pub closed spec fn node_seq(self) -> Seq<Node<ND>> {
        self.nodes@
    }

    /// The ghost height labelling, in allocation order.
    pub closed spec fn height_seq(self) -> Seq<int> {
        self.heights@
    }

    /// The handle of the root node.
    pub closed spec fn root_handle(self) -> Index {
        self.root
    }

    /// The minimum fanout of a non-root internal node.
    pub closed spec fn spec_min_children(self) -> int {
        self.min_children as int
    }

    /// The maximum fanout of a node.
    pub closed spec fn spec_max_children(self) -> int {
        self.max_children as int
    }

    /// The number of nodes in the tree.
    pub open spec fn node_count(self) -> int {
        self.node_seq().len() as int
    }

    /// The node stored in slot `n`.
    pub open spec fn node_at(self, n: int) -> Node<ND> {
        self.node_seq()[n]
    }

    /// Whether `n` is the slot of a live node.
    pub open spec fn valid_slot(self, n: int) -> bool {
        0 <= n < self.node_count()
    }

    /// Whether the handle `i` addresses a live node.
    pub open spec fn valid_index(self, i: Index) -> bool {
        i.slot < self.node_count() && i.generation == 0
    }

    /// The slot of the root node.
    pub open spec fn root_slot(self) -> int {
        self.root_handle().slot as int
    }

    /// The bounding region of the node in slot `n`.
    pub open spec fn mbr(self, n: int) -> Seq<(int, int)> {
        self.node_at(n).minimum_bounding_region@
    }

    /// The child handles of the node in slot `n`.
    pub open spec fn children_of(self, n: int) -> Seq<Index> {
        self.node_at(n).children@
    }

    /// The slot of the `k`-th child of the node in slot `n`.
    pub open spec fn child_slot(self, n: int, k: int) -> int {
        self.children_of(n)[k].slot as int
    }

    /// Whether the node in slot `n` is a leaf.
    pub open spec fn is_leaf(self, n: int) -> bool {
        self.node_at(n).data is Some
    }

    /// The parent handle of the node in slot `n`.
    pub open spec fn parent_of(self, n: int) -> Option<Index> {
        self.node_at(n).parent
    }

    /// The slot of the parent of the node in slot `n` (meaningful only
    /// when the node has a parent).
    pub open spec fn parent_slot(self, n: int) -> int {
        match self.parent_of(n) {
            Some(i) => i.slot as int,
            None => -1,
        }
    }

    /// Whether the parent handle of `n` exists and is at generation zero.
    pub open spec fn parent_gen_ok(self, n: int) -> bool {
        match self.parent_of(n) {
            Some(i) => i.generation == 0,
            None => false,
        }
    }

    /// Whether `c` is listed among the children of the node in slot `n`.
    pub open spec fn is_child_of(self, c: int, n: int) -> bool {
        exists|k: int|
            0 <= k < self.children_of(n).len() && #[trigger] self.child_slot(n, k) == c
    }

    /// Whether the parent of `n` lists `n` among its children.
    pub open spec fn listed_by_parent(self, n: int) -> bool {
        self.is_child_of(n, self.parent_slot(n))
    }

    /// The ghost height of the node in slot `n`: zero at leaves,
    /// incremented at each level above.
    pub open spec fn height_of(self, n: int) -> int {
        self.height_seq()[n]
    }

    /// The height of the tree: the ghost height of the root.
    pub open spec fn height(self) -> int {
        self.height_of(self.root_slot())
    }

    /// The dimension shared by all regions in the tree.
    pub open spec fn dim(self) -> int {
        self.mbr(self.root_slot()).len() as int
    }

    /// The fanout constants are in range: at least two children per
    /// node, and a minimum fanout no more than half the maximum.
    pub open spec fn wf_params(self) -> bool {
        &&& 2 <= self.spec_min_children()
        &&& 2 * self.spec_min_children() <= self.spec_max_children()
    }

    /// The root is live, has no parent, and is internal; the ghost
    /// height labelling covers every node.
    pub open spec fn wf_root(self) -> bool {
        &&& 1 <= self.node_count() <= usize::MAX
        &&& self.height_seq().len() == self.node_count()
        &&& self.root_handle().generation == 0
        &&& 0 <= self.root_slot() < self.node_count()
        &&& self.parent_of(self.root_slot()) is None
        &&& !self.is_leaf(self.root_slot())
    }

    /// Every node's region is well formed and of the tree's dimension.
    pub open spec fn wf_regions(self) -> bool {
        forall|n: int|
            self.valid_slot(n) ==> region_wf(#[trigger] self.mbr(n)) && self.mbr(n).len()
                == self.dim()
    }

    /// Parent links: every listed child is a live non-root node whose
    /// parent link points back; children are pairwise distinct; every
    /// non-root node is listed by its parent.
    pub open spec fn links_ok(self) -> bool {
        &&& forall|n: int, k: int|
            #![trigger self.child_slot(n, k)]
            self.valid_slot(n) && 0 <= k < self.children_of(n).len() ==> (self.children_of(
                n,
            )[k].generation == 0 && self.valid_slot(self.child_slot(n, k)) && self.child_slot(n, k)
                != self.root_slot() && self.parent_of(self.child_slot(n, k)) == Some(
                (Index { slot: n as usize, generation: 0 }),
            ))
        &&& forall|n: int, k1: int, k2: int|
            #![trigger self.child_slot(n, k1), self.child_slot(n, k2)]
            self.valid_slot(n) && 0 <= k1 < self.children_of(n).len() && 0 <= k2
                < self.children_of(n).len() && k1 != k2 ==> self.child_slot(n, k1)
                != self.child_slot(n, k2)
        &&& forall|n: int|
            self.valid_slot(n) && n != self.root_slot() ==> (#[trigger] self.parent_of(n) is Some
                && self.parent_gen_ok(n) && self.valid_slot(self.parent_slot(n))
                && self.listed_by_parent(n))
    }

    /// Heights: non-negative everywhere and bounded by the node count,
    /// zero exactly at leaves, and decreasing by exactly one from a node
    /// to each of its children.
    pub open spec fn heights_ok(self) -> bool {
        &&& forall|n: int|
            self.valid_slot(n) ==> 0 <= #[trigger] self.height_of(n) <= self.node_count() && (
            self.is_leaf(n) <==> self.height_of(n) == 0)
        &&& forall|n: int, k: int|
            #![trigger self.child_slot(n, k)]
            self.valid_slot(n) && 0 <= k < self.children_of(n).len() ==> self.height_of(
                self.child_slot(n, k),
            ) == self.height_of(n) - 1
    }

    /// Parent containment: every node's region contains the region of
    /// each of its children.
    pub open spec fn contain_ok(self) -> bool {
        forall|n: int, k: int|
            #![trigger self.child_slot(n, k)]
            self.valid_slot(n) && 0 <= k < self.children_of(n).len() ==> region_contains(
                self.mbr(n),
                self.mbr(self.child_slot(n, k)),
            )
    }

    /// Fanout: every non-root internal node has between `min_children`
    /// and `max_children` children; leaves have none; the root has
    /// children exactly when the tree holds entries.
    pub open spec fn fanout_ok(self) -> bool {
        &&& forall|n: int|
            self.valid_slot(n) && n != self.root_slot() && !self.is_leaf(n)
                ==> self.spec_min_children() <= #[trigger] self.children_of(n).len()
                < self.spec_max_children()
        &&& forall|n: int|
            self.valid_slot(n) && self.is_leaf(n) ==> #[trigger] self.children_of(n).len() == 0
        &&& self.children_of(self.root_slot()).len() < self.spec_max_children()
        &&& (self.children_of(self.root_slot()).len() == 0 <==> self.node_count() == 1)
        &&& (self.node_count() == 1 ==> self.height() == 1)
    }

    /// Everything the invariant states except the fanout bounds: the
    /// part that holds even in the middle of a split, when one node is
    /// momentarily over-full.
    pub open spec fn core_inv(self) -> bool {
        &&& self.wf_params()
        &&& self.wf_root()
        &&& self.wf_regions()
        &&& self.links_ok()
        &&& self.heights_ok()
        &&& self.contain_ok()
    }

    /// The structural invariant of the tree; holds after every public
    /// operation.
    pub open spec fn inv(self) -> bool {
        &&& self.core_inv()
        &&& self.fanout_ok()
    }

    /// The fanout bounds, relaxed at the single node `x`, which has
    /// just reached the maximum fanout and is about to be split.
    pub open spec fn fanout_ok_except(self, x: int) -> bool {
        &&& forall|n: int|
            self.valid_slot(n) && n != self.root_slot() && !self.is_leaf(n) && n != x
                ==> self.spec_min_children() <= #[trigger] self.children_of(n).len()
                < self.spec_max_children()
        &&& forall|n: int|
            self.valid_slot(n) && self.is_leaf(n) ==> #[trigger] self.children_of(n).len() == 0
        &&& x != self.root_slot() ==> self.children_of(self.root_slot()).len()
            < self.spec_max_children()
        &&& self.valid_slot(x) && !self.is_leaf(x)
        &&& self.children_of(x).len() == self.spec_max_children()
        &&& (self.children_of(self.root_slot()).len() == 0 <==> self.node_count() == 1)
        &&& (self.node_count() == 1 ==> self.height() == 1)
    }

    /// The invariant as it stands right before a split: everything
    /// holds, except that node `x` carries `max_children` children.
    pub open spec fn inv_except_overfull(self, x: int) -> bool {
        &&& self.core_inv()
        &&& self.fanout_ok_except(x)
    }

    /// Whether some handle in `hs` addresses slot `n`.
    pub open spec fn slot_in(hs: Seq<Index>, n: int) -> bool {
        exists|k: int| 0 <= k < hs.len() && #[trigger] hs[k].slot == n
    }

    /// The handles in `hs` address pairwise distinct slots.
    pub open spec fn slots_distinct(hs: Seq<Index>) -> bool {
        forall|k1: int, k2: int|
            #![trigger hs[k1].slot, hs[k2].slot]
            0 <= k1 < hs.len() && 0 <= k2 < hs.len() && k1 != k2 ==> hs[k1].slot != hs[k2].slot
    }

    /// Every handle in `hs` addresses a live node carrying a well-formed
    /// region of dimension `d`.
    pub open spec fn regions_ok(self, hs: Seq<Index>, d: int) -> bool {
        forall|k: int|
            0 <= k < hs.len() ==> self.valid_index(#[trigger] hs[k]) && region_wf(
                self.mbr(hs[k].slot as int),
            ) && self.mbr(hs[k].slot as int).len() == d
    }

    /// The tree keeps its identity across an operation: same root
    /// handle, same fanout bounds, same dimension.
    pub open spec fn same_shape_params(self, o: RTree<ND>) -> bool {
        &&& self.root_handle() == o.root_handle()
        &&& self.spec_min_children() == o.spec_min_children()
        &&& self.spec_max_children() == o.spec_max_children()
        &&& self.dim() == o.dim()
    }

    /// Every leaf of `o` survives in `self`, in the same slot and with
    /// the same region and payload.
    pub open spec fn keeps_leaves_of(self, o: RTree<ND>) -> bool {
        &&& o.node_count() <= self.node_count()
        &&& forall|n: int|
            o.valid_slot(n) && o.is_leaf(n) ==> self.is_leaf(n) && (#[trigger] self.node_at(
                n,
            )).minimum_bounding_region@ == o.node_at(n).minimum_bounding_region@ && self.node_at(
                n,
            ).data == o.node_at(n).data
    }

    /// The leaves of `self` are exactly the leaves of `o`: no entry was
    /// added or removed.
    pub open spec fn same_leaves_as(self, o: RTree<ND>) -> bool {
        &&& self.keeps_leaves_of(o)
        &&& forall|n: int|
            self.valid_slot(n) && #[trigger] self.is_leaf(n) ==> o.valid_slot(n) && o.is_leaf(n)
    }

    /// Creates a new tree with the given number of dimensions and the
    /// default fanout bounds.  The single root node starts with the
    /// all-covering region, so parent containment holds trivially until
    /// the first entry replaces it.
    pub fn new(dimension: usize) -> (t: RTree<ND>)
        requires
            1 <= dimension,
        ensures
            t.inv(),
            t.dim() == dimension,
            t.node_count() == 1,
            t.spec_min_children() == 2,
            t.spec_max_children() == 8,
            forall|n: int| t.valid_slot(n) ==> !t.is_leaf(n),
            t.children_of(t.root_slot()).len() == 0,
            t.parent_of(t.root_slot()) is None,
            forall|i: int|
                0 <= i < dimension ==> #[trigger] t.mbr(t.root_slot())[i] == (
                    i64::MIN as int,
                    i64::MAX as int,
                ),
    {
        let node = Node::new_internal_node(Region::infinite(dimension), None);
        let mut nodes: Arena<Node<ND>> = Arena::new();
        let root = nodes.insert(node);
        let ghost initial_heights: Seq<int> = seq![1int];
        let t = RTree::<ND> {
            nodes,
            root,
            min_children: 2,
            max_children: 8,
            heights: Ghost(initial_heights),
        };
        proof {
            assert(t.node_count() == 1);
            assert(t.root_slot() == 0);
            assert(t.children_of(0).len() == 0);
            assert(t.inv());
        }
        t
    }

    /// A reference to the node addressed by `index`, or `None` for a
    /// handle that does not address a live node.
    pub fn get_node(&self, index: Index) -> (r: Option<&Node<ND>>)
        ensures
            match r {
                Some(n) => self.valid_index(index) && *n == self.node_at(index.slot as int),
                None => !self.valid_index(index),
            },
    {
        self.nodes.get(index)
    }

    /// A mutable reference to the node addressed by `index`, which must
    /// be live.  Mutating a node through it does not maintain the tree
    /// invariant; the caller is responsible for restoring it.
    pub fn get_node_mut(&mut self, index: Index) -> (r: &mut Node<ND>)
        requires
            old(self).valid_index(index),
        ensures
            *r == old(self).node_at(index.slot as int),
            final(self).node_seq() == old(self).node_seq().update(index.slot as int, *final(r)),
            final(self).height_seq() == old(self).height_seq(),
            final(self).root_handle() == old(self).root_handle(),
            final(self).spec_min_children() == old(self).spec_min_children(),
            final(self).spec_max_children() == old(self).spec_max_children(),
    {
        self.nodes.at_mut(index)
    }

    /// The handle of the root node.
    pub fn root_index(&self) -> (i: Index)
        ensures
            i == self.root_handle(),
    {
        self.root
    }

    /// A reference to the root node.
    pub fn root_node(&self) -> (n: &Node<ND>)
        requires
            self.inv(),
        ensures
            *n == self.node_at(self.root_slot()),
    {
        self.nodes.at(self.root)
    }

    /// The handles of all live nodes, in allocation order.
    pub fn node_iter(&self) -> (v: Vec<Index>)
        ensures
            v@.len() == self.node_count(),
            forall|k: int|
                0 <= k < v@.len() ==> #[trigger] v@[k] == (Index {
                    slot: k as usize,
                    generation: 0,
                }),
    {
        let n = self.nodes.len();
        let mut v: Vec<Index> = Vec::new();
        let mut i: usize = 0;
        while i < n
            invariant
                i <= n,
                n == self.node_count(),
                v@.len() == i,
                forall|k: int|
                    0 <= k < i ==> #[trigger] v@[k] == (Index { slot: k as usize, generation: 0 }),
            decreases n - i,
        {
            v.push(Index { slot: i, generation: 0 });
            i += 1;
        }
        v
    }

    /// The handles of the children of the node addressed by `index`,
    /// in order.
    pub fn child_iter(&self, index: Index) -> (v: Vec<Index>)
        requires
            self.valid_index(index),
        ensures
            v@ == self.children_of(index.slot as int),
    {
        self.nodes.at(index).child_index_iter()
    }

    /// Validates the consistency of the tree at run time: checks that
    /// every child's region is contained in its parent's region, that
    /// every child's parent link points back, and that the number of
    /// nodes reachable from the root equals the number of nodes in the
    /// arena.  On a tree whose invariant holds — that is, on any tree
    /// this library hands out — the check always passes, and that is
    /// what the contract states.  The converse (that the check fails on
    /// an inconsistent tree) is not stated: the walk is well founded
    /// only on trees satisfying the invariant, and a verified function
    /// must terminate, so inconsistent trees — which this library
    /// cannot produce — are outside the precondition.
    pub fn validate_consistency(&self) -> (ok: bool)
        requires
            self.inv(),
        ensures
            ok,
    {
        let mut node_counter: usize = 0;
        proof {
            self.nodes.lemma_len_bound();
            self.lemma_subtree_set_finite(self.root_slot());
        }
        let walk_ok = self.validate_node(self.root, &mut node_counter);
        proof {
            self.lemma_subtree_set_root();
        }
        walk_ok && node_counter == self.nodes.len()
    }

    /// All parent-to-child edges of the tree, each written as
    /// `(parent, child)`: every listed pair is a real edge, and every
    /// non-root node appears as the child of exactly its parent.
    pub fn collect_edges(&self) -> (edges: Vec<(Index, Index)>)
        requires
            self.inv(),
        ensures
            forall|j: int|
                0 <= j < edges@.len() ==> ((#[trigger] edges@[j]).0.generation == 0
                    && edges@[j].1.generation == 0 && self.valid_slot(edges@[j].0.slot as int)
                    && self.valid_slot(edges@[j].1.slot as int) && self.is_child_of(
                    edges@[j].1.slot as int,
                    edges@[j].0.slot as int,
                ) && self.parent_of(edges@[j].1.slot as int) == Some(edges@[j].0)),
            forall|n: int|
                self.valid_slot(n) && n != self.root_slot() ==> exists|j: int|
                    0 <= j < edges@.len() && (#[trigger] edges@[j]).1.slot == n,
    {
        let mut edges: Vec<(Index, Index)> = Vec::new();
        self.collect_edges_from(&mut edges, self.root);
        proof {
            assert forall|n: int| self.valid_slot(n) && n != self.root_slot() implies exists|
                j: int,
            |
                0 <= j < edges@.len() && (#[trigger] edges@[j]).1.slot == n by {
                self.lemma_root_reaches_all(n);
            }
        }
        edges
    }

    /// Recursively extends `buffer` with the `(parent, child)` edges of
    /// the subtree below `index`.
    fn collect_edges_from(&self, buffer: &mut Vec<(Index, Index)>, index: Index)
        requires
            self.inv(),
            self.valid_index(index),
        ensures
            old(buffer)@.len() <= final(buffer)@.len(),
            forall|j: int| 0 <= j < old(buffer)@.len() ==> #[trigger] final(buffer)@[j] == old(buffer)@[j],
            forall|j: int|
                old(buffer)@.len() <= j < final(buffer)@.len() ==> ((#[trigger] final(buffer)@[j]).0.generation == 0 && final(buffer)@[j].1.generation == 0 && self.valid_slot(
                    final(buffer)@[j].0.slot as int,
                ) && self.valid_slot(final(buffer)@[j].1.slot as int) && self.is_child_of(
                    final(buffer)@[j].1.slot as int,
                    final(buffer)@[j].0.slot as int,
                ) && self.parent_of(final(buffer)@[j].1.slot as int) == Some(
                    final(buffer)@[j].0,
                )),
            forall|n: int|
                self.valid_slot(n) && self.in_subtree(index.slot as int, n) && n
                    != index.slot as int ==> exists|j: int|
                    0 <= j < final(buffer)@.len() && (#[trigger] final(buffer)@[j]).1.slot == n,
        decreases self.height_of(index.slot as int),
    {
        let ghost xs = index.slot as int;
        proof {
            assert(0 <= self.height_of(xs));
        }
        let child_count = self.nodes.at(index).child_count();
        let ghost len0 = buffer@.len() as int;
        let mut k: usize = 0;
        while k < child_count
            invariant
                self.inv(),
                self.valid_index(index),
                xs == index.slot as int,
                child_count == self.children_of(xs).len(),
                k <= child_count,
                len0 == old(buffer)@.len(),
                len0 <= buffer@.len(),
                forall|j: int| 0 <= j < len0 ==> #[trigger] buffer@[j] == old(buffer)@[j],
                forall|j: int|
                    len0 <= j < buffer@.len() ==> ((#[trigger] buffer@[j]).0.generation == 0
                        && buffer@[j].1.generation == 0 && self.valid_slot(
                        buffer@[j].0.slot as int,
                    ) && self.valid_slot(buffer@[j].1.slot as int) && self.is_child_of(
                        buffer@[j].1.slot as int,
                        buffer@[j].0.slot as int,
                    ) && self.parent_of(buffer@[j].1.slot as int) == Some(buffer@[j].0)),
                forall|n: int, j2: int|
                    #![trigger self.in_subtree(self.child_slot(xs, j2), n)]
                    self.valid_slot(n) && 0 <= j2 < k && self.in_subtree(
                        self.child_slot(xs, j2),
                        n,
                    ) ==> exists|j: int|
                        0 <= j < buffer@.len() && (#[trigger] buffer@[j]).1.slot == n,
            decreases child_count - k,
        {
            let child = self.nodes.at(index).child_at(k);
            proof {
                self.lemma_child_facts(xs, k as int);
            }
            let ghost b0 = buffer@;
            buffer.push((index, child));
            proof {
                assert(buffer@[buffer@.len() - 1].1.slot as int == self.child_slot(xs, k as int));
                assert(self.is_child_of(child.slot as int, xs)) by {
                    assert(self.child_slot(xs, k as int) == child.slot as int);
                }
                assert(index == (Index { slot: xs as usize, generation: 0 }));
            }
            let ghost pre = buffer@;
            self.collect_edges_from(buffer, child);
            proof {
                let cslot = child.slot as int;
                assert forall|n: int, j2: int|
                    #![trigger self.in_subtree(self.child_slot(xs, j2), n)]
                    self.valid_slot(n) && 0 <= j2 < k + 1 && self.in_subtree(
                        self.child_slot(xs, j2),
                        n,
                    ) implies exists|j: int|
                    0 <= j < buffer@.len() && (#[trigger] buffer@[j]).1.slot == n by {
                    if j2 < k {
                        let j = choose|j: int|
                            0 <= j < b0.len() && (#[trigger] b0[j]).1.slot == n;
                        assert(pre[j] == b0[j]);
                        assert(buffer@[j] == pre[j]);
                        assert(buffer@[j].1.slot == n);
                    } else {
                        if n == cslot {
                            let j = pre.len() - 1;
                            assert(buffer@[j] == pre[j]);
                            assert(buffer@[j].1.slot == n);
                        } else {
                            assert(self.in_subtree(cslot, n));
                        }
                    }
                }
            }
            k += 1;
        }
        proof {
            assert forall|n: int|
                self.valid_slot(n) && self.in_subtree(xs, n) && n != xs implies exists|j: int|
                0 <= j < buffer@.len() && (#[trigger] buffer@[j]).1.slot == n by {
                self.lemma_step_down(xs, n);
                let j2 = choose|j2: int|
                    0 <= j2 < self.children_of(xs).len() && #[trigger] self.in_subtree(
                        self.child_slot(xs, j2),
                        n,
                    );
                assert(self.in_subtree(self.child_slot(xs, j2), n));
            }
        }
    }

    /// Recursively checks containment and parent links below `index`,
    /// adding the number of visited nodes to `node_counter`.
    #[verifier::rlimit(50)]
    fn validate_node(&self, index: Index, node_counter: &mut usize) -> (ok: bool)
        requires
            self.inv(),
            self.valid_index(index),
            *old(node_counter) + self.subtree_set(index.slot as int).len() <= usize::MAX,
        ensures
            ok,
            *final(node_counter) == *old(node_counter) + self.subtree_set(
                index.slot as int,
            ).len(),
        decreases self.height_of(index.slot as int),
    {
        let ghost xs = index.slot as int;
        proof {
            assert(0 <= self.height_of(xs));
            self.lemma_subtree_set_finite(xs);
            self.lemma_subtree_set_nonempty(xs);
            if self.is_leaf(xs) {
                self.lemma_subtree_set_leaf(xs);
            }
        }
        *node_counter = *node_counter + 1;
        let child_count = self.nodes.at(index).child_count();
        if self.nodes.at(index).is_leaf() {
            return true;
        }
        let mut all_ok = true;
        let mut k: usize = 0;
        proof {
            assert(self.covered_by_children(xs, 0) =~= Set::<int>::empty());
            self.lemma_subtree_set_decompose(xs);
        }
        while k < child_count
            invariant
                self.inv(),
                self.valid_index(index),
                xs == index.slot as int,
                !self.is_leaf(xs),
                child_count == self.children_of(xs).len(),
                k <= child_count,
                all_ok,
                self.covered_by_children(xs, k as int).finite(),
                *node_counter == *old(node_counter) + 1 + self.covered_by_children(
                    xs,
                    k as int,
                ).len(),
                *old(node_counter) + self.subtree_set(xs).len() <= usize::MAX,
                self.covered_by_children(xs, k as int).len() + 1 <= self.subtree_set(xs).len(),
            decreases child_count - k,
        {
            let child = self.nodes.at(index).child_at(k);
            proof {
                self.lemma_child_facts(xs, k as int);
                self.lemma_covered_step(xs, k as int);
                self.lemma_covered_finite(xs, child_count as int);
                self.lemma_subtree_set_decompose(xs);
                self.lemma_subtree_set_finite(child.slot as int);
                assert(self.covered_by_children(xs, k as int + 1).len() + 1 <= self.subtree_set(
                    xs,
                ).len()) by {
                    assert(self.covered_by_children(xs, k as int + 1).subset_of(
                        self.covered_by_children(xs, child_count as int),
                    )) by {
                        assert forall|m: int|
                            self.covered_by_children(xs, k as int + 1).contains(m) implies
                            self.covered_by_children(xs, child_count as int).contains(m) by {
                            let j = choose|j: int|
                                0 <= j < k as int + 1 && self.in_subtree(
                                    #[trigger] self.child_slot(xs, j),
                                    m,
                                );
                            assert(self.in_subtree(self.child_slot(xs, j), m));
                        }
                    }
                    vstd::set_lib::lemma_len_subset(
                        self.covered_by_children(xs, k as int + 1),
                        self.covered_by_children(xs, child_count as int),
                    );
                }
            }
            let contained = match self.nodes.at(index).get_region().contains_region(
                self.nodes.at(child).get_region(),
            ) {
                Ok(b) => b,
                Err(_) => {
                    proof {
                        assert(false);
                    }
                    false
                },
            };
            let linked = match self.nodes.at(child).get_parent() {
                Some(p) => p == index,
                None => false,
            };
            if !(contained && linked) {
                proof {
                    assert(false);
                }
                all_ok = false;
            }
            let sub_ok = self.validate_node(child, node_counter);
            all_ok = all_ok && sub_ok;
            k += 1;
        }
        proof {
            self.lemma_subtree_set_decompose(xs);
        }
        all_ok
    }
}

} // verus!
