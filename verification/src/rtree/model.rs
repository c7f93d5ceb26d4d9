//! The reachability model of the tree, and the structural laws proved
//! over it.
//!
//! A node `n` lies in the subtree of `a` when some chain of parent links
//! leads from `n` up to `a` ([`RTree::chain_to`], [`RTree::in_subtree`]).
//! Because the invariant labels every node with a height that drops by
//! exactly one along each edge, chains have determined lengths: ancestors
//! of a node are totally ordered, subtrees of distinct siblings are
//! disjoint, and every root-to-leaf path has the same length.  The public
//! proof functions in this module state the structural laws of the tree:
//! parent containment, parent links, fanout, balance, and the root region
//! covering every node.

use vstd::prelude::*;

use crate::geometry::region::{lemma_contains_trans, region_contains};
use crate::rtree::arena::Index;
use crate::rtree::RTree;

verus! {

impl<ND> RTree<ND> {
    /// Bundles the invariant's statements about one child edge, so that
    /// proofs can bring them into scope with a single call.
    pub proof fn lemma_child_facts(self, n: int, k: int)
        requires
            self.core_inv(),
            self.valid_slot(n),
            0 <= k < self.children_of(n).len(),
        ensures
            self.valid_slot(self.child_slot(n, k)),
            self.child_slot(n, k) != self.root_slot(),
            self.children_of(n)[k].generation == 0,
            self.parent_of(self.child_slot(n, k)) == Some(
                (Index { slot: n as usize, generation: 0 }),
            ),
            self.parent_slot(self.child_slot(n, k)) == n,
            self.height_of(self.child_slot(n, k)) == self.height_of(n) - 1,
            0 <= self.height_of(n) <= self.node_count(),
            0 <= self.height_of(self.child_slot(n, k)),
            region_contains(self.mbr(n), self.mbr(self.child_slot(n, k))),
    {
        let c = self.child_slot(n, k);
        assert(0 <= self.height_of(n));
        assert(self.valid_slot(c));
        assert(0 <= self.height_of(c));
        assert(self.parent_of(c) == Some((Index { slot: n as usize, generation: 0 })));
    }

    /// Bundles the invariant's statements about one non-root node and
    /// its parent edge.
    pub proof fn lemma_parent_facts(self, n: int)
        requires
            self.core_inv(),
            self.valid_slot(n),
            n != self.root_slot(),
        ensures
            self.parent_of(n) is Some,
            self.parent_gen_ok(n),
            self.valid_slot(self.parent_slot(n)),
            self.listed_by_parent(n),
            self.height_of(self.parent_slot(n)) == self.height_of(n) + 1,
            region_contains(self.mbr(self.parent_slot(n)), self.mbr(n)),
    {
        assert(self.parent_of(n) is Some && self.listed_by_parent(n));
        let p = self.parent_slot(n);
        let k = choose|k: int|
            0 <= k < self.children_of(p).len() && #[trigger] self.child_slot(p, k) == n;
        self.lemma_child_facts(p, k);
    }

    /// A chain of `t` parent links leads from `n` up to `a`, staying on
    /// live, non-root nodes below `a`.
    pub open spec fn chain_to(self, a: int, n: int, t: int) -> bool
        decreases t,
    {
        if t <= 0 {
            n == a
        } else {
            &&& self.valid_slot(n)
            &&& n != self.root_slot()
            &&& self.chain_to(a, self.parent_slot(n), t - 1)
        }
    }

    /// `n` lies in the subtree rooted at `a`: some chain of parent links
    /// leads from `n` up to `a`.
    pub open spec fn in_subtree(self, a: int, n: int) -> bool {
        exists|t: int| 0 <= t && #[trigger] self.chain_to(a, n, t)
    }

    /// The set of slots in the subtree rooted at `a`.
    pub open spec fn subtree_set(self, a: int) -> Set<int> {
        Set::new(|n: int| self.valid_slot(n) && self.in_subtree(a, n))
    }

    /// The subtree relation is reflexive.
    pub proof fn lemma_subtree_refl(self, a: int)
        ensures
            self.in_subtree(a, a),
    {
        assert(self.chain_to(a, a, 0));
    }

    /// A chain fixes the height of its endpoint: `t` steps up from `n`
    /// raise the height by `t`.
    pub proof fn lemma_chain_heights(self, a: int, n: int, t: int)
        requires
            self.core_inv(),
            self.valid_slot(a),
            0 <= t,
            self.chain_to(a, n, t),
        ensures
            self.valid_slot(n),
            self.height_of(n) == self.height_of(a) - t,
        decreases t,
    {
        if t > 0 {
            self.lemma_parent_facts(n);
            self.lemma_chain_heights(a, self.parent_slot(n), t - 1);
        }
    }

    /// Every slot in a subtree is a live slot no higher than the
    /// subtree's root.
    pub proof fn lemma_subtree_valid(self, a: int, n: int)
        requires
            self.core_inv(),
            self.valid_slot(a),
            self.in_subtree(a, n),
        ensures
            self.valid_slot(n),
            self.height_of(n) <= self.height_of(a),
    {
        let t = choose|t: int| 0 <= t && #[trigger] self.chain_to(a, n, t);
        self.lemma_chain_heights(a, n, t);
    }

    /// Chains concatenate: a chain from `c` up to `b` extends by a chain
    /// from `b` up to `a`.
    pub proof fn lemma_chain_concat(self, a: int, b: int, c: int, t1: int, t2: int)
        requires
            0 <= t1,
            0 <= t2,
            self.chain_to(b, c, t1),
            self.chain_to(a, b, t2),
        ensures
            self.chain_to(a, c, t1 + t2),
        decreases t1,
    {
        if t1 <= 0 {
        } else {
            self.lemma_chain_concat(a, b, self.parent_slot(c), t1 - 1, t2);
        }
    }

    /// The subtree relation is transitive.
    pub proof fn lemma_subtree_trans(self, a: int, b: int, c: int)
        requires
            self.in_subtree(a, b),
            self.in_subtree(b, c),
        ensures
            self.in_subtree(a, c),
    {
        let t1 = choose|t: int| 0 <= t && #[trigger] self.chain_to(b, c, t);
        let t2 = choose|t: int| 0 <= t && #[trigger] self.chain_to(a, b, t);
        self.lemma_chain_concat(a, b, c, t1, t2);
    }

    /// Every listed child lies in its parent's subtree.
    pub proof fn lemma_child_in_subtree(self, n: int, k: int)
        requires
            self.core_inv(),
            self.valid_slot(n),
            0 <= k < self.children_of(n).len(),
        ensures
            self.in_subtree(n, self.child_slot(n, k)),
    {
        self.lemma_child_facts(n, k);
        assert(self.chain_to(n, self.parent_slot(self.child_slot(n, k)), 0));
        assert(self.chain_to(n, self.child_slot(n, k), 1)) by {
            reveal_with_fuel(RTree::chain_to, 2);
        }
    }

    /// The subtree of a leaf is the leaf alone.
    pub proof fn lemma_subtree_of_leaf(self, a: int, n: int)
        requires
            self.core_inv(),
            self.valid_slot(a),
            self.is_leaf(a),
            self.in_subtree(a, n),
        ensures
            n == a,
    {
        let t = choose|t: int| 0 <= t && #[trigger] self.chain_to(a, n, t);
        self.lemma_chain_heights(a, n, t);
        assert(self.height_of(a) == 0);
        if t > 0 {
            assert(self.height_of(n) < 0);
        }
    }

    /// Walking one step up: a strict descendant of `a` is a non-root
    /// node whose parent is also in the subtree of `a`.
    pub proof fn lemma_step_up(self, a: int, m: int)
        requires
            self.core_inv(),
            self.valid_slot(a),
            self.in_subtree(a, m),
            m != a,
        ensures
            self.valid_slot(m),
            m != self.root_slot(),
            self.in_subtree(a, self.parent_slot(m)),
    {
        let t = choose|t: int| 0 <= t && #[trigger] self.chain_to(a, m, t);
        self.lemma_chain_heights(a, m, t);
        assert(t > 0);
        assert(self.chain_to(a, self.parent_slot(m), t - 1));
    }

    /// Walking one step down: a strict descendant of `a` lies in the
    /// subtree of one of `a`'s children.
    pub proof fn lemma_step_down(self, a: int, m: int)
        requires
            self.core_inv(),
            self.valid_slot(a),
            self.in_subtree(a, m),
            m != a,
        ensures
            exists|k: int|
                0 <= k < self.children_of(a).len() && #[trigger] self.in_subtree(
                    self.child_slot(a, k),
                    m,
                ),
    {
        let t = choose|t: int| 0 <= t && #[trigger] self.chain_to(a, m, t);
        self.lemma_chain_heights(a, m, t);
        assert(t > 0);
        let s = self.lemma_chain_top(a, m, t);
        let k = choose|k: int|
            0 <= k < self.children_of(a).len() && #[trigger] self.child_slot(a, k) == s;
        assert(self.in_subtree(self.child_slot(a, k), m));
    }

    /// The node just below `a` on a chain from `m` up to `a`: it is a
    /// child of `a` whose subtree holds `m`.
    proof fn lemma_chain_top(self, a: int, m: int, t: int) -> (s: int)
        requires
            self.core_inv(),
            self.valid_slot(a),
            1 <= t,
            self.chain_to(a, m, t),
        ensures
            self.valid_slot(s),
            self.parent_slot(s) == a,
            self.is_child_of(s, a),
            self.chain_to(s, m, t - 1),
            self.in_subtree(s, m),
        decreases t,
    {
        reveal_with_fuel(RTree::chain_to, 2);
        if t == 1 {
            self.lemma_parent_facts(m);
            assert(self.parent_slot(m) == a);
            assert(self.chain_to(m, m, 0));
            m
        } else {
            let s = self.lemma_chain_top(a, self.parent_slot(m), t - 1);
            assert(self.chain_to(s, m, t - 1));
            s
        }
    }

    /// Every live node lies in the subtree of the root.
    pub proof fn lemma_root_reaches_all(self, n: int)
        requires
            self.core_inv(),
            self.valid_slot(n),
        ensures
            self.in_subtree(self.root_slot(), n),
        decreases self.node_count() - self.height_of(n),
    {
        if n == self.root_slot() {
            self.lemma_subtree_refl(n);
        } else {
            self.lemma_parent_facts(n);
            let p = self.parent_slot(n);
            assert(0 <= self.height_of(n));
            self.lemma_root_reaches_all(p);
            let t = choose|t: int| 0 <= t && #[trigger] self.chain_to(self.root_slot(), p, t);
            assert(self.chain_to(self.root_slot(), n, t + 1));
        }
    }

    /// Chains to a common node nest: the longer chain passes through the
    /// top of the shorter one.
    pub proof fn lemma_chain_nest(self, a: int, b: int, m: int, ta: int, tb: int)
        requires
            self.core_inv(),
            0 <= ta <= tb,
            self.chain_to(a, m, ta),
            self.chain_to(b, m, tb),
        ensures
            self.chain_to(b, a, tb - ta),
        decreases ta,
    {
        if ta > 0 {
            self.lemma_chain_nest(a, b, self.parent_slot(m), ta - 1, tb - 1);
        }
    }

    /// Two nodes whose subtrees share a node are comparable: one lies in
    /// the subtree of the other.
    pub proof fn lemma_ancestors_ordered(self, a: int, b: int, m: int)
        requires
            self.core_inv(),
            self.in_subtree(a, m),
            self.in_subtree(b, m),
        ensures
            self.in_subtree(a, b) || self.in_subtree(b, a),
    {
        let ta = choose|t: int| 0 <= t && #[trigger] self.chain_to(a, m, t);
        let tb = choose|t: int| 0 <= t && #[trigger] self.chain_to(b, m, t);
        if ta <= tb {
            self.lemma_chain_nest(a, b, m, ta, tb);
        } else {
            self.lemma_chain_nest(b, a, m, tb, ta);
        }
    }

    /// A subtree relation between nodes of equal height forces equality.
    pub proof fn lemma_subtree_same_height(self, a: int, n: int)
        requires
            self.core_inv(),
            self.valid_slot(a),
            self.in_subtree(a, n),
            self.height_of(a) == self.height_of(n),
        ensures
            n == a,
    {
        let t = choose|t: int| 0 <= t && #[trigger] self.chain_to(a, n, t);
        self.lemma_chain_heights(a, n, t);
    }

    /// Subtrees of two distinct children of one node are disjoint.
    pub proof fn lemma_sibling_subtrees_disjoint(self, n: int, k1: int, k2: int, m: int)
        requires
            self.core_inv(),
            self.valid_slot(n),
            0 <= k1 < self.children_of(n).len(),
            0 <= k2 < self.children_of(n).len(),
            k1 != k2,
            self.in_subtree(self.child_slot(n, k1), m),
        ensures
            !self.in_subtree(self.child_slot(n, k2), m),
    {
        let c1 = self.child_slot(n, k1);
        let c2 = self.child_slot(n, k2);
        self.lemma_child_facts(n, k1);
        self.lemma_child_facts(n, k2);
        assert(c1 != c2);
        if self.in_subtree(c2, m) {
            self.lemma_ancestors_ordered(c1, c2, m);
            if self.in_subtree(c1, c2) {
                self.lemma_subtree_same_height(c1, c2);
            } else {
                self.lemma_subtree_same_height(c2, c1);
            }
        }
    }

    /// Law (parent containment): for every node and each of its
    /// children, the node's region contains the child's region.
    pub proof fn lemma_parent_containment(self, n: int, k: int)
        requires
            self.core_inv(),
            self.valid_slot(n),
            0 <= k < self.children_of(n).len(),
        ensures
            region_contains(self.mbr(n), self.mbr(self.child_slot(n, k))),
    {
        self.lemma_child_facts(n, k);
    }

    /// Law (parent link): every non-root node has a parent that lists it
    /// among its children.
    pub proof fn lemma_parent_link(self, n: int)
        requires
            self.core_inv(),
            self.valid_slot(n),
            n != self.root_slot(),
        ensures
            self.parent_of(n) is Some,
            self.valid_slot(self.parent_slot(n)),
            self.listed_by_parent(n),
    {
        self.lemma_parent_facts(n);
    }

    /// Law (fanout): every non-root internal node has between
    /// `min_children` and `max_children` children.
    pub proof fn lemma_fanout(self, n: int)
        requires
            self.inv(),
            self.valid_slot(n),
            n != self.root_slot(),
            !self.is_leaf(n),
        ensures
            self.spec_min_children() <= self.children_of(n).len() <= self.spec_max_children(),
    {
        assert(self.spec_min_children() <= self.children_of(n).len() < self.spec_max_children());
    }

    /// A node's region contains the region of every node in its subtree.
    pub proof fn lemma_subtree_mbr_contained(self, a: int, n: int)
        requires
            self.core_inv(),
            self.valid_slot(a),
            self.in_subtree(a, n),
        ensures
            region_contains(self.mbr(a), self.mbr(n)),
    {
        let t = choose|t: int| 0 <= t && #[trigger] self.chain_to(a, n, t);
        self.lemma_chain_mbr_contained(a, n, t);
    }

    /// Along a chain, each region contains the one below it.
    proof fn lemma_chain_mbr_contained(self, a: int, n: int, t: int)
        requires
            self.core_inv(),
            self.valid_slot(a),
            0 <= t,
            self.chain_to(a, n, t),
        ensures
            region_contains(self.mbr(a), self.mbr(n)),
        decreases t,
    {
        if t <= 0 {
            assert(region_contains(self.mbr(a), self.mbr(a)));
        } else {
            self.lemma_parent_facts(n);
            self.lemma_chain_mbr_contained(a, self.parent_slot(n), t - 1);
            lemma_contains_trans(self.mbr(a), self.mbr(self.parent_slot(n)), self.mbr(n));
        }
    }

    /// Law (monotonic root region): the root's region contains the
    /// region of every node in the tree — in particular, of every leaf,
    /// i.e. of every inserted rectangle.
    pub proof fn lemma_root_contains_all(self, n: int)
        requires
            self.core_inv(),
            self.valid_slot(n),
        ensures
            region_contains(self.mbr(self.root_slot()), self.mbr(n)),
    {
        self.lemma_root_reaches_all(n);
        self.lemma_subtree_mbr_contained(self.root_slot(), n);
    }

    /// The slots lying under one of the first `k` children of `n`.
    pub open spec fn covered_by_children(self, n: int, k: int) -> Set<int> {
        Set::new(
            |m: int|
                self.valid_slot(m) && exists|j: int|
                    0 <= j < k && self.in_subtree(#[trigger] self.child_slot(n, j), m),
        )
    }

    /// Subtree sets are finite and no larger than the tree.
    pub proof fn lemma_subtree_set_finite(self, a: int)
        requires
            self.core_inv(),
            self.valid_slot(a),
        ensures
            self.subtree_set(a).finite(),
            self.subtree_set(a).len() <= self.node_count(),
    {
        let r = vstd::set_lib::set_int_range(0, self.node_count());
        vstd::set_lib::lemma_int_range(0, self.node_count());
        assert(self.subtree_set(a).subset_of(r));
        vstd::set_lib::lemma_len_subset(self.subtree_set(a), r);
    }

    /// The subtree set of a leaf is the leaf alone.
    pub proof fn lemma_subtree_set_leaf(self, a: int)
        requires
            self.core_inv(),
            self.valid_slot(a),
            self.is_leaf(a),
        ensures
            self.subtree_set(a) =~= Set::empty().insert(a),
            self.subtree_set(a).len() == 1,
    {
        self.lemma_subtree_refl(a);
        assert forall|m: int| self.subtree_set(a).contains(m) implies m == a by {
            self.lemma_subtree_of_leaf(a, m);
        }
        assert(self.subtree_set(a) =~= Set::empty().insert(a));
    }

    /// Two disjoint finite sets of slots add their sizes under union.
    proof fn lemma_len_disjoint_union(s1: Set<int>, s2: Set<int>)
        requires
            s1.finite(),
            s2.finite(),
            s1.disjoint(s2),
        ensures
            (s1 + s2).len() == s1.len() + s2.len(),
            (s1 + s2).finite(),
        decreases s1.len(),
    {
        if s1.is_empty() {
            assert(s1 + s2 =~= s2);
        } else {
            let a = s1.choose();
            assert(s1.contains(a));
            assert((s1 + s2).remove(a) =~= s1.remove(a) + s2);
            Self::lemma_len_disjoint_union(s1.remove(a), s2);
            assert((s1 + s2).contains(a));
        }
    }

    /// A covered set is finite and no larger than the tree.
    pub proof fn lemma_covered_finite(self, n: int, k: int)
        requires
            self.core_inv(),
        ensures
            self.covered_by_children(n, k).finite(),
            self.covered_by_children(n, k).len() <= self.node_count(),
    {
        let r = vstd::set_lib::set_int_range(0, self.node_count());
        vstd::set_lib::lemma_int_range(0, self.node_count());
        assert(self.covered_by_children(n, k).subset_of(r));
        vstd::set_lib::lemma_len_subset(self.covered_by_children(n, k), r);
    }

    /// Extending the child prefix by one adds exactly that child's
    /// subtree, disjoint from everything covered so far.
    pub proof fn lemma_covered_step(self, n: int, k: int)
        requires
            self.core_inv(),
            self.valid_slot(n),
            0 <= k < self.children_of(n).len(),
        ensures
            self.covered_by_children(n, k + 1) =~= self.covered_by_children(n, k)
                + self.subtree_set(self.child_slot(n, k)),
            self.covered_by_children(n, k + 1).finite(),
            self.covered_by_children(n, k + 1).len() == self.covered_by_children(n, k).len()
                + self.subtree_set(self.child_slot(n, k)).len(),
    {
        self.lemma_child_facts(n, k);
        self.lemma_covered_finite(n, k);
        let c = self.child_slot(n, k);
        let prev = self.covered_by_children(n, k);
        let step = self.subtree_set(c);
        assert forall|m: int|
            self.covered_by_children(n, k + 1).contains(m) implies (prev + step).contains(m) by {
            let j = choose|j: int|
                0 <= j < k + 1 && self.in_subtree(#[trigger] self.child_slot(n, j), m);
            if j < k {
                assert(prev.contains(m));
            } else {
                assert(step.contains(m)) by {
                    self.lemma_subtree_valid(c, m);
                }
            }
        }
        assert forall|m: int|
            (prev + step).contains(m) implies self.covered_by_children(n, k + 1).contains(m) by {
            if prev.contains(m) {
                let j = choose|j: int|
                    0 <= j < k && self.in_subtree(#[trigger] self.child_slot(n, j), m);
                assert(self.in_subtree(self.child_slot(n, j), m));
            } else {
                assert(self.in_subtree(self.child_slot(n, k), m));
            }
        }
        assert(self.covered_by_children(n, k + 1) =~= prev + step);
        assert(prev.disjoint(step)) by {
            assert forall|m: int| prev.contains(m) implies !step.contains(m) by {
                let j = choose|j: int|
                    0 <= j < k && self.in_subtree(#[trigger] self.child_slot(n, j), m);
                self.lemma_sibling_subtrees_disjoint(n, j, k, m);
            }
        }
        self.lemma_subtree_set_finite(c);
        Self::lemma_len_disjoint_union(prev, step);
    }

    /// An internal node's subtree is the node itself plus everything
    /// covered by its children.
    pub proof fn lemma_subtree_set_decompose(self, n: int)
        requires
            self.core_inv(),
            self.valid_slot(n),
            !self.is_leaf(n),
        ensures
            self.subtree_set(n) =~= self.covered_by_children(
                n,
                self.children_of(n).len() as int,
            ).insert(n),
            self.subtree_set(n).len() == self.covered_by_children(
                n,
                self.children_of(n).len() as int,
            ).len() + 1,
    {
        let cc = self.children_of(n).len() as int;
        let cov = self.covered_by_children(n, cc);
        self.lemma_covered_finite(n, cc);
        self.lemma_subtree_refl(n);
        assert forall|m: int| self.subtree_set(n).contains(m) implies cov.insert(n).contains(
            m,
        ) by {
            if m != n {
                self.lemma_step_down(n, m);
                let j = choose|j: int|
                    0 <= j < cc && self.in_subtree(#[trigger] self.child_slot(n, j), m);
                self.lemma_subtree_valid(self.child_slot(n, j), m) ;
                assert(cov.contains(m));
            }
        }
        assert forall|m: int| cov.insert(n).contains(m) implies self.subtree_set(n).contains(
            m,
        ) by {
            if m != n {
                let j = choose|j: int|
                    0 <= j < cc && self.in_subtree(#[trigger] self.child_slot(n, j), m);
                self.lemma_child_in_subtree(n, j);
                self.lemma_subtree_trans(n, self.child_slot(n, j), m);
                self.lemma_subtree_valid(self.child_slot(n, j), m);
            }
        }
        assert(self.subtree_set(n) =~= cov.insert(n));
        assert(!cov.contains(n)) by {
            if cov.contains(n) {
                let j = choose|j: int|
                    0 <= j < cc && self.in_subtree(#[trigger] self.child_slot(n, j), n);
                self.lemma_child_facts(n, j);
                self.lemma_subtree_valid(self.child_slot(n, j), n);
            }
        }
    }

    /// A subtree always holds at least its own root.
    pub proof fn lemma_subtree_set_nonempty(self, a: int)
        requires
            self.core_inv(),
            self.valid_slot(a),
        ensures
            self.subtree_set(a).len() >= 1,
    {
        self.lemma_subtree_set_finite(a);
        self.lemma_subtree_refl(a);
        assert(self.subtree_set(a).contains(a));
        assert(self.subtree_set(a).remove(a).len() == self.subtree_set(a).len() - 1);
    }

    /// A chain upward transfers between two trees that agree, at and
    /// above the chain's starting height, on validity, heights, parent
    /// links and the root.
    pub proof fn lemma_chain_up_transfer(t0: Self, mid: Self, n: int, m: int, t: int)
        requires
            t0.core_inv(),
            0 <= t,
            mid.chain_to(n, m, t),
            t0.valid_slot(m),
            t0.root_handle() == mid.root_handle(),
            forall|x: int|
                t0.valid_slot(x) && t0.height_of(x) >= t0.height_of(m)
                    ==> #[trigger] mid.parent_of(x) == t0.parent_of(x),
            forall|x: int| t0.valid_slot(x) ==> #[trigger] mid.height_of(x) == t0.height_of(x),
        ensures
            t0.chain_to(n, m, t),
        decreases t,
    {
        if t > 0 {
            assert(mid.parent_of(m) == t0.parent_of(m));
            assert(m != t0.root_slot());
            t0.lemma_parent_facts(m);
            let p = t0.parent_slot(m);
            assert(t0.height_of(p) == t0.height_of(m) + 1);
            assert forall|x: int|
                t0.valid_slot(x) && t0.height_of(x) >= t0.height_of(p)
                    implies #[trigger] mid.parent_of(x) == t0.parent_of(x) by {
                assert(t0.height_of(x) >= t0.height_of(m));
            }
            Self::lemma_chain_up_transfer(t0, mid, n, p, t - 1);
        }
    }

    /// The subtree-of relation upward transfers under the same
    /// agreement: an ancestor in the stepped tree was one already.
    pub proof fn lemma_ancestor_transfer(t0: Self, mid: Self, n: int, m: int)
        requires
            t0.core_inv(),
            mid.in_subtree(n, m),
            t0.valid_slot(m),
            t0.root_handle() == mid.root_handle(),
            forall|x: int|
                t0.valid_slot(x) && t0.height_of(x) >= t0.height_of(m)
                    ==> #[trigger] mid.parent_of(x) == t0.parent_of(x),
            forall|x: int| t0.valid_slot(x) ==> #[trigger] mid.height_of(x) == t0.height_of(x),
        ensures
            t0.in_subtree(n, m),
    {
        let t = choose|t: int| 0 <= t && #[trigger] mid.chain_to(n, m, t);
        Self::lemma_chain_up_transfer(t0, mid, n, m, t);
    }

    /// The whole tree is the root's subtree.
    pub proof fn lemma_subtree_set_root(self)
        requires
            self.core_inv(),
        ensures
            self.subtree_set(self.root_slot()).len() == self.node_count(),
    {
        let r = vstd::set_lib::set_int_range(0, self.node_count());
        vstd::set_lib::lemma_int_range(0, self.node_count());
        assert forall|m: int| r.contains(m) implies self.subtree_set(
            self.root_slot(),
        ).contains(m) by {
            self.lemma_root_reaches_all(m);
        }
        assert(self.subtree_set(self.root_slot()) =~= r);
    }

    /// `a` comes before `b` in a depth-first, first-child-first walk:
    /// at some node, `a` lies under an earlier child than `b`.
    pub open spec fn dfs_before(self, a: int, b: int) -> bool {
        exists|n: int, ka: int, kb: int|
            self.valid_slot(n) && 0 <= ka < kb < self.children_of(n).len()
                && #[trigger] self.in_subtree(self.child_slot(n, ka), a)
                && #[trigger] self.in_subtree(self.child_slot(n, kb), b)
    }

    /// The depth-first order is asymmetric, so together with the hit
    /// set it determines a query result uniquely.
    pub proof fn lemma_dfs_before_asymmetric(self, a: int, b: int)
        requires
            self.core_inv(),
        ensures
            !(self.dfs_before(a, b) && self.dfs_before(b, a)),
    {
        if self.dfs_before(a, b) && self.dfs_before(b, a) {
            let (n1, ka1, kb1) = choose|n: int, ka: int, kb: int|
                self.valid_slot(n) && 0 <= ka < kb < self.children_of(n).len()
                    && #[trigger] self.in_subtree(self.child_slot(n, ka), a)
                    && #[trigger] self.in_subtree(self.child_slot(n, kb), b);
            let (n2, ka2, kb2) = choose|n: int, ka: int, kb: int|
                self.valid_slot(n) && 0 <= ka < kb < self.children_of(n).len()
                    && #[trigger] self.in_subtree(self.child_slot(n, ka), b)
                    && #[trigger] self.in_subtree(self.child_slot(n, kb), a);
            self.lemma_child_facts(n1, ka1);
            self.lemma_child_facts(n1, kb1);
            self.lemma_child_facts(n2, ka2);
            self.lemma_child_facts(n2, kb2);
            self.lemma_child_in_subtree(n1, ka1);
            self.lemma_child_in_subtree(n1, kb1);
            self.lemma_child_in_subtree(n2, ka2);
            self.lemma_child_in_subtree(n2, kb2);
            self.lemma_subtree_trans(n1, self.child_slot(n1, ka1), a);
            self.lemma_subtree_trans(n2, self.child_slot(n2, kb2), a);
            self.lemma_subtree_trans(n1, self.child_slot(n1, kb1), b);
            self.lemma_subtree_trans(n2, self.child_slot(n2, ka2), b);
            self.lemma_ancestors_ordered(n1, n2, a);
            if n1 == n2 {
                if ka1 != kb2 {
                    self.lemma_sibling_subtrees_disjoint(n1, ka1, kb2, a);
                    assert(!self.in_subtree(self.child_slot(n1, kb2), a));
                }
                assert(ka1 == kb2);
                if kb1 != ka2 {
                    self.lemma_sibling_subtrees_disjoint(n1, kb1, ka2, b);
                    assert(!self.in_subtree(self.child_slot(n1, ka2), b));
                }
                assert(kb1 == ka2);
            } else if self.in_subtree(n1, n2) {
                // n2 lies under exactly one child of n1; both a and b
                // lie under n2, forcing ka1 == kb1
                self.lemma_step_down(n1, n2);
                let ks = choose|k: int|
                    0 <= k < self.children_of(n1).len() && #[trigger] self.in_subtree(
                        self.child_slot(n1, k),
                        n2,
                    );
                self.lemma_child_facts(n1, ks);
                self.lemma_subtree_trans(self.child_slot(n1, ks), n2, a);
                if ka1 != ks {
                    self.lemma_sibling_subtrees_disjoint(n1, ka1, ks, a);
                    assert(!self.in_subtree(self.child_slot(n1, ks), a));
                }
                assert(ka1 == ks);
                self.lemma_subtree_trans(self.child_slot(n1, ks), n2, b);
                if kb1 != ks {
                    self.lemma_sibling_subtrees_disjoint(n1, kb1, ks, b);
                    assert(!self.in_subtree(self.child_slot(n1, ks), b));
                }
                assert(kb1 == ks);
            } else {
                assert(self.in_subtree(n2, n1));
                self.lemma_step_down(n2, n1);
                let ks = choose|k: int|
                    0 <= k < self.children_of(n2).len() && #[trigger] self.in_subtree(
                        self.child_slot(n2, k),
                        n1,
                    );
                self.lemma_child_facts(n2, ks);
                self.lemma_subtree_trans(self.child_slot(n2, ks), n1, a);
                if kb2 != ks {
                    self.lemma_sibling_subtrees_disjoint(n2, kb2, ks, a);
                    assert(!self.in_subtree(self.child_slot(n2, ks), a));
                }
                assert(kb2 == ks);
                self.lemma_subtree_trans(self.child_slot(n2, ks), n1, b);
                if ka2 != ks {
                    self.lemma_sibling_subtrees_disjoint(n2, ka2, ks, b);
                    assert(!self.in_subtree(self.child_slot(n2, ks), b));
                }
                assert(ka2 == ks);
            }
        }
    }

    /// Any two distinct leaves under one node are ordered one way or
    /// the other by the depth-first order.
    pub proof fn lemma_dfs_before_total(self, a: int, b: int, n: int)
        requires
            self.core_inv(),
            self.valid_slot(n),
            self.is_leaf(a),
            self.is_leaf(b),
            a != b,
            self.in_subtree(n, a),
            self.in_subtree(n, b),
        ensures
            self.dfs_before(a, b) || self.dfs_before(b, a),
        decreases self.height_of(n),
    {
        assert(0 <= self.height_of(n));
        self.lemma_subtree_valid(n, a);
        self.lemma_subtree_valid(n, b);
        assert(a != n || b != n) by {
            if a == n {
                self.lemma_subtree_of_leaf(n, b);
            }
        }
        if a == n {
            self.lemma_subtree_of_leaf(n, b);
        } else if b == n {
            self.lemma_subtree_of_leaf(n, a);
        } else {
            self.lemma_step_down(n, a);
            let ka = choose|k: int|
                0 <= k < self.children_of(n).len() && #[trigger] self.in_subtree(
                    self.child_slot(n, k),
                    a,
                );
            self.lemma_step_down(n, b);
            let kb = choose|k: int|
                0 <= k < self.children_of(n).len() && #[trigger] self.in_subtree(
                    self.child_slot(n, k),
                    b,
                );
            if ka < kb {
                assert(self.dfs_before(a, b));
            } else if kb < ka {
                assert(self.dfs_before(b, a));
            } else {
                self.lemma_child_facts(n, ka);
                self.lemma_dfs_before_total(a, b, self.child_slot(n, ka));
            }
        }
    }

    /// A root-to-node path: each entry is a child of the one before it.
    pub open spec fn is_path(self, p: Seq<int>) -> bool {
        &&& p.len() >= 1
        &&& p[0] == self.root_slot()
        &&& forall|j: int|
            0 <= j < p.len() - 1 ==> self.valid_slot(#[trigger] p[j]) && self.is_child_of(
                p[j + 1],
                p[j],
            )
    }

    /// Along a path, heights drop by one per step.
    pub proof fn lemma_path_heights(self, p: Seq<int>, j: int)
        requires
            self.core_inv(),
            self.is_path(p),
            0 <= j < p.len(),
        ensures
            self.valid_slot(p[j]),
            self.height_of(p[j]) == self.height() - j,
        decreases j,
    {
        if j == 0 {
        } else {
            self.lemma_path_heights(p, j - 1);
            let k = choose|k: int|
                0 <= k < self.children_of(p[j - 1]).len() && #[trigger] self.child_slot(
                    p[j - 1],
                    k,
                ) == p[j];
            self.lemma_child_facts(p[j - 1], k);
        }
    }

    /// Law (balance): every path from the root to a leaf has the same
    /// length, namely the height of the tree plus one — so all leaves
    /// share the same depth.
    pub proof fn lemma_balance(self, p: Seq<int>)
        requires
            self.core_inv(),
            self.is_path(p),
            self.is_leaf(p[p.len() - 1]),
        ensures
            p.len() == self.height() + 1,
    {
        self.lemma_path_heights(p, p.len() - 1);
        assert(self.height_of(p[p.len() - 1]) == 0);
    }
}

} // verus!
