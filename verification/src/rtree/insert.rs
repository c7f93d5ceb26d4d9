//! Insertion: descend along the children that require the least
//! enlargement, attach the entry as a new leaf at the level just above
//! the leaves, and split on overflow.

use vstd::prelude::*;

use crate::geometry::region::{
    lemma_union_contains_operands, lemma_union_least, lemma_union_wf, region_contains,
    region_enlargement, region_union, region_wf, Region,
};
use crate::geometry::ShapelikeError;
use crate::rtree::arena::Index;
use crate::rtree::node::Node;
use crate::rtree::RTree;

verus! {

impl<ND> RTree<ND> {
    /// Whether any direct child of the node at `index` is a leaf.
    pub(crate) fn has_child_leaf(&self, index: Index) -> (r: bool)
        requires
            self.inv(),
            self.valid_index(index),
        ensures
            r == exists|k: int|
                0 <= k < self.children_of(index.slot as int).len() && self.is_leaf(
                    #[trigger] self.child_slot(index.slot as int, k),
                ),
    {
        let ghost xs = index.slot as int;
        let count = self.nodes.at(index).child_count();
        let mut k: usize = 0;
        while k < count
            invariant
                self.inv(),
                self.valid_index(index),
                xs == index.slot as int,
                count == self.children_of(xs).len(),
                k <= count,
                forall|j: int|
                    0 <= j < k ==> !self.is_leaf(#[trigger] self.child_slot(xs, j)),
            decreases count - k,
        {
            let child = self.nodes.at(index).child_at(k);
            proof {
                self.lemma_child_facts(xs, k as int);
            }
            if self.nodes.at(child).is_leaf() {
                proof {
                    assert(self.is_leaf(self.child_slot(xs, k as int)));
                }
                return true;
            }
            k += 1;
        }
        false
    }

    /// The shape of a plain leaf attachment: one fresh leaf in the next
    /// slot, appended to the target's child list; nothing else changes.
    pub open spec fn attach_shape(t0: Self, tf: Self, index: Index) -> bool {
        &&& tf.node_count() == t0.node_count() + 1
        &&& tf.children_of(index.slot as int) == t0.children_of(index.slot as int).push(
            (Index { slot: t0.node_count() as usize, generation: 0 }),
        )
        &&& tf.node_at(index.slot as int).minimum_bounding_region == t0.node_at(
            index.slot as int,
        ).minimum_bounding_region
        &&& tf.node_at(index.slot as int).data == t0.node_at(index.slot as int).data
        &&& tf.node_at(index.slot as int).parent == t0.node_at(index.slot as int).parent
        &&& tf.is_leaf(t0.node_count())
        &&& tf.node_at(t0.node_count()).parent == Some(index)
        &&& tf.children_of(t0.node_count()).len() == 0
        &&& forall|n: int|
            t0.valid_slot(n) && n != index.slot as int ==> #[trigger] tf.node_at(n) == t0.node_at(
                n,
            )
        &&& tf.height_seq() == t0.height_seq().push(0)
    }

    /// Attaches the entry as a new leaf under the node at `index`,
    /// splitting it if it now has too many children.
    #[verifier::rlimit(100)]
    #[verifier::spinoff_prover]
    fn insert_leaf_at(&mut self, region: Region, data: ND, index: Index)
        requires
            old(self).inv(),
            old(self).valid_index(index),
            old(self).height_of(index.slot as int) == 1,
            old(self).height_of(index.slot as int) <= old(self).height(),
            region_wf(region@),
            region@.len() == old(self).dim(),
            region_contains(old(self).mbr(index.slot as int), region@),
        ensures
            final(self).inv(),
            final(self).same_shape_params(*old(self)),
            final(self).keeps_leaves_of(*old(self)),
            old(self).node_count() < final(self).node_count(),
            final(self).is_leaf(old(self).node_count()),
            final(self).node_at(old(self).node_count()).minimum_bounding_region@ == region@,
            final(self).node_at(old(self).node_count()).data == Some(data),
            forall|n: int|
                final(self).valid_slot(n) && #[trigger] final(self).is_leaf(n) ==> (old(
                    self,
                ).valid_slot(n) && old(self).is_leaf(n)) || n == old(self).node_count(),
            final(self).mbr(final(self).root_slot()) == old(self).mbr(old(self).root_slot()),
            forall|n: int|
                old(self).valid_slot(n) ==> region_contains(
                    old(self).mbr(n),
                    #[trigger] final(self).mbr(n),
                ),
            old(self).children_of(index.slot as int).len() + 1 < old(self).spec_max_children()
                ==> Self::attach_shape(*old(self), *final(self), index),
            old(self).children_of(index.slot as int).len() + 1 == old(self).spec_max_children()
                ==> exists|mid: Self|
                #[trigger] Self::attach_shape(*old(self), mid, index) && Self::split_outcome(
                    mid,
                    *final(self),
                    index,
                ),
    {
        let ghost t0 = *self;
        let ghost xs = index.slot as int;
        let ghost c0 = t0.node_count();
        let ghost rs = t0.root_slot();
        proof {
            self.nodes.lemma_len_bound();
        }
        let leaf_node = Node::new_leaf(region, data, Some(index));
        let leaf_index = self.nodes.insert(leaf_node);
        self.nodes.at_mut(index).add_child_unchecked(leaf_index);
        self.heights = Ghost(t0.height_seq().push(0));
        proof {
            self.nodes.lemma_len_bound();
            let t1 = *self;
            assert(leaf_index == (Index { slot: c0 as usize, generation: 0 }));
            assert(t1.node_count() == c0 + 1);
            assert(t1.children_of(xs) == t0.children_of(xs).push(leaf_index));
            assert(t1.node_at(xs).minimum_bounding_region == t0.node_at(
                xs,
            ).minimum_bounding_region && t1.node_at(xs).data == t0.node_at(xs).data && t1.node_at(
                xs,
            ).parent == t0.node_at(xs).parent);
            assert forall|n: int|
                t0.valid_slot(n) && n != xs implies #[trigger] t1.node_at(n) == t0.node_at(n) by {}
            assert forall|n: int|
                t0.valid_slot(n) implies #[trigger] t1.height_of(n) == t0.height_of(n) by {}
            assert(t1.height_of(c0) == 0);
            assert(t1.is_leaf(c0) && t1.children_of(c0).len() == 0);
            assert(t1.dim() == t0.dim()) by {
                if rs != xs {
                    assert(t1.node_at(rs) == t0.node_at(rs));
                }
            }
            assert(!t0.is_leaf(xs)) by {
                assert(0 <= t0.height_of(xs));
            }
            assert(t1.wf_params());
            assert(t1.wf_root()) by {
                if rs != xs {
                    assert(t1.node_at(rs) == t0.node_at(rs));
                }
            }
            assert(t1.wf_regions()) by {
                assert forall|n: int| t1.valid_slot(n) implies region_wf(#[trigger] t1.mbr(n))
                    && t1.mbr(n).len() == t1.dim() by {
                    if n == c0 {
                        assert(t1.mbr(n) == region@);
                    } else if n == xs {
                        assert(t1.mbr(n) == t0.mbr(n));
                        assert(region_wf(t0.mbr(n)) && t0.mbr(n).len() == t0.dim());
                    } else {
                        assert(t1.node_at(n) == t0.node_at(n));
                        assert(t0.valid_slot(n));
                        assert(region_wf(t0.mbr(n)) && t0.mbr(n).len() == t0.dim());
                    }
                }
            }
            assert forall|n: int, k: int|
                #![trigger t1.child_slot(n, k)]
                t1.valid_slot(n) && 0 <= k < t1.children_of(n).len() implies (t1.children_of(
                    n,
                )[k].generation == 0 && t1.valid_slot(t1.child_slot(n, k)) && t1.child_slot(n, k)
                    != t1.root_slot() && t1.parent_of(t1.child_slot(n, k)) == Some(
                    (Index { slot: n as usize, generation: 0 }),
                ) && t1.height_of(t1.child_slot(n, k)) == t1.height_of(n) - 1 && region_contains(
                    t1.mbr(n),
                    t1.mbr(t1.child_slot(n, k)),
                )) by {
                if n == c0 {
                } else if n == xs && k == t1.children_of(xs).len() - 1 {
                    assert(t1.child_slot(n, k) == c0);
                    assert(c0 != rs);
                    assert(t1.mbr(c0) == region@);
                    assert(t1.mbr(xs) == t0.mbr(xs));
                } else {
                    assert(t0.valid_slot(n));
                    assert(t1.child_slot(n, k) == t0.child_slot(n, k)) by {
                        if n == xs {
                        } else {
                            assert(t1.node_at(n) == t0.node_at(n));
                        }
                    }
                    t0.lemma_child_facts(n, k);
                    let c = t1.child_slot(n, k);
                    if c == xs {
                        assert(t1.parent_of(c) == t0.parent_of(c));
                        assert(t1.mbr(c) == t0.mbr(c));
                        assert(t1.height_of(c) == t0.height_of(c));
                    } else {
                        assert(t1.node_at(c) == t0.node_at(c));
                    }
                    assert(t1.mbr(n) == t0.mbr(n)) by {
                        if n == xs {
                        } else {
                            assert(t1.node_at(n) == t0.node_at(n));
                        }
                    }
                }
            }
            assert forall|n: int, k1: int, k2: int|
                #![trigger t1.child_slot(n, k1), t1.child_slot(n, k2)]
                t1.valid_slot(n) && 0 <= k1 < t1.children_of(n).len() && 0 <= k2
                    < t1.children_of(n).len() && k1 != k2 implies t1.child_slot(n, k1)
                    != t1.child_slot(n, k2) by {
                if n == xs {
                    if k1 == t1.children_of(xs).len() - 1 || k2 == t1.children_of(xs).len() - 1 {
                        let o = if k1 < k2 {
                            k1
                        } else {
                            k2
                        };
                        t0.lemma_child_facts(xs, o);
                        assert(t0.child_slot(xs, o) < c0);
                        assert(t1.child_slot(xs, t1.children_of(xs).len() - 1) == c0);
                    } else {
                        assert(t0.child_slot(xs, k1) != t0.child_slot(xs, k2));
                    }
                } else if n == c0 {
                } else {
                    assert(t1.node_at(n) == t0.node_at(n));
                    assert(t0.valid_slot(n));
                    assert(t0.child_slot(n, k1) != t0.child_slot(n, k2));
                }
            }
            assert forall|n: int|
                t1.valid_slot(n) && n != t1.root_slot() implies (#[trigger] t1.parent_of(
                n,
            ) is Some && t1.parent_gen_ok(n) && t1.valid_slot(t1.parent_slot(n))
                && t1.listed_by_parent(n)) by {
                if n == c0 {
                    assert(t1.child_slot(xs, t1.children_of(xs).len() - 1) == c0);
                    assert(t1.parent_slot(n) == xs);
                } else {
                    assert(t0.valid_slot(n) && n != rs);
                    assert(t0.parent_of(n) is Some && t0.listed_by_parent(n));
                    assert(t1.parent_of(n) == t0.parent_of(n)) by {
                        if n != xs {
                            assert(t1.node_at(n) == t0.node_at(n));
                        }
                    }
                    let p = t0.parent_slot(n);
                    let k = choose|k: int|
                        0 <= k < t0.children_of(p).len() && #[trigger] t0.child_slot(p, k) == n;
                    assert(t1.children_of(p) == t0.children_of(p) || p == xs);
                    assert(t1.child_slot(p, k) == n) by {
                        if p == xs {
                            assert(t1.children_of(xs)[k] == t0.children_of(xs)[k]);
                        } else {
                            assert(t1.node_at(p) == t0.node_at(p));
                        }
                    }
                    assert(t1.parent_slot(n) == p);
                    t0.lemma_parent_facts(n);
                }
            }
            assert forall|n: int|
                t1.valid_slot(n) implies 0 <= #[trigger] t1.height_of(n) <= t1.node_count() && (
                t1.is_leaf(n) <==> t1.height_of(n) == 0) by {
                if n == c0 {
                } else {
                    assert(t1.height_of(n) == t0.height_of(n));
                    assert(t1.is_leaf(n) == t0.is_leaf(n)) by {
                        if n != xs {
                            assert(t1.node_at(n) == t0.node_at(n));
                        }
                    }
                }
            }
            assert(t1.core_inv());
            assert forall|n: int|
                t1.valid_slot(n) && t1.is_leaf(n) implies #[trigger] t1.children_of(n).len()
                    == 0 by {
                if n != c0 {
                    assert(t0.valid_slot(n));
                    assert(t1.node_at(n).data == t0.node_at(n).data) by {
                        if n != xs {
                            assert(t1.node_at(n) == t0.node_at(n));
                        }
                    }
                    assert(t0.is_leaf(n));
                    assert(n != xs);
                    assert(t1.node_at(n) == t0.node_at(n));
                    assert(t0.children_of(n).len() == 0);
                }
            }
            assert forall|n: int|
                t1.valid_slot(n) && n != t1.root_slot() && !t1.is_leaf(n) && n != xs
                    implies t1.spec_min_children() <= #[trigger] t1.children_of(n).len()
                    < t1.spec_max_children() by {
                assert(n != c0);
                assert(t0.valid_slot(n));
                assert(t1.node_at(n) == t0.node_at(n));
                assert(!t0.is_leaf(n));
                assert(t0.spec_min_children() <= t0.children_of(n).len()
                    < t0.spec_max_children());
            }
            assert(t1.children_of(t1.root_slot()).len() > 0) by {
                if rs == xs {
                } else {
                    assert(t1.node_at(rs) == t0.node_at(rs));
                    assert(t0.children_of(rs).len() > 0) by {
                        if t0.node_count() == 1 {
                            assert(t0.valid_slot(xs) && xs == 0 && rs == 0);
                        }
                    }
                }
            }
            assert(t1.children_of(xs).len() == t0.children_of(xs).len() + 1);
            assert(t1.children_of(xs).len() <= t1.spec_max_children());
            if t1.children_of(xs).len() == t1.spec_max_children() {
                assert(t1.inv_except_overfull(xs)) by {
                    assert(!t1.is_leaf(xs));
                    if xs != rs {
                        assert(t1.children_of(rs).len() < t1.spec_max_children()) by {
                            assert(t1.node_at(rs) == t0.node_at(rs));
                        }
                    }
                }
            } else {
                assert(t1.inv()) by {
                    if xs == rs {
                    } else {
                        assert(t1.spec_min_children() <= t1.children_of(xs).len());
                        assert(t1.children_of(rs).len() < t1.spec_max_children()) by {
                            assert(t1.node_at(rs) == t0.node_at(rs));
                        }
                    }
                }
            }
            assert(t1.mbr(t1.root_slot()) == t0.mbr(rs)) by {
                if rs != xs {
                    assert(t1.node_at(rs) == t0.node_at(rs));
                }
            }
            assert(t1.height() == t0.height());
        }
        proof {
            assert forall|n: int|
                t0.valid_slot(n) implies region_contains(t0.mbr(n), #[trigger] self.mbr(n)) by {
                assert(region_contains(t0.mbr(n), t0.mbr(n)));
                if n == xs {
                    assert(self.node_at(xs).minimum_bounding_region == t0.node_at(
                        xs,
                    ).minimum_bounding_region);
                } else {
                    assert(self.node_at(n) == t0.node_at(n));
                }
            }
        }
        proof {
            assert(Self::attach_shape(t0, *self, index));
        }
        if self.nodes.at(index).child_count() >= self.max_children {
            let ghost t1 = *self;
            proof {
                assert(t1.children_of(xs).len() == t1.spec_max_children());
                assert(t1.inv_except_overfull(xs));
                assert(t1.height_of(xs) <= t1.height());
            }
            self.split_node(index);
            proof {
                let tz = *self;
                assert(Self::attach_shape(t0, t1, index) && Self::split_outcome(t1, tz, index));
                assert forall|n: int|
                    t0.valid_slot(n) implies region_contains(
                    t0.mbr(n),
                    #[trigger] tz.mbr(n),
                ) by {
                    assert(region_contains(t0.mbr(n), t1.mbr(n)));
                    assert(region_contains(t1.mbr(n), tz.mbr(n)));
                    crate::geometry::region::lemma_contains_trans(
                        t0.mbr(n),
                        t1.mbr(n),
                        tz.mbr(n),
                    );
                }
                assert(tz.same_shape_params(t0));
                assert(tz.keeps_leaves_of(t0)) by {
                    assert forall|n: int|
                        t0.valid_slot(n) && t0.is_leaf(n) implies tz.is_leaf(n)
                            && (#[trigger] tz.node_at(n)).minimum_bounding_region@ == t0.node_at(
                            n,
                        ).minimum_bounding_region@ && tz.node_at(n).data == t0.node_at(
                            n,
                        ).data by {
                        assert(t1.valid_slot(n) && t1.is_leaf(n));
                        assert(t1.node_at(n) == t0.node_at(n));
                    }
                }
                assert(tz.is_leaf(c0) && tz.node_at(c0).minimum_bounding_region@ == region@
                    && tz.node_at(c0).data == Some(data)) by {
                    assert(t1.valid_slot(c0) && t1.is_leaf(c0));
                }
                assert forall|n: int|
                    tz.valid_slot(n) && #[trigger] tz.is_leaf(n) implies (t0.valid_slot(n)
                        && t0.is_leaf(n)) || n == c0 by {
                    assert(t1.valid_slot(n) && t1.is_leaf(n));
                    if n != c0 {
                        assert(t1.node_at(n) == t0.node_at(n));
                    }
                }
            }
        }
    }

    /// Chooses the subtree to insert into, following the descent rule:
    /// the first child whose region already contains the entry wins;
    /// otherwise the child whose region needs the least enlargement to
    /// cover the entry, earlier children winning exact ties.  Returns
    /// the chosen child's position.
    fn choose_subtree(&self, region: &Region, index: Index) -> (c: usize)
        requires
            self.inv(),
            self.valid_index(index),
            self.children_of(index.slot as int).len() > 0,
            region_wf(region@),
            region@.len() == self.dim(),
        ensures
            (c as int) < self.children_of(index.slot as int).len(),
            (exists|k: int|
                0 <= k < self.children_of(index.slot as int).len() && region_contains(
                    #[trigger] self.mbr(self.child_slot(index.slot as int, k)),
                    region@,
                )) ==> region_contains(
                self.mbr(self.child_slot(index.slot as int, c as int)),
                region@,
            ) && (forall|k: int|
                0 <= k < c ==> !region_contains(
                    #[trigger] self.mbr(self.child_slot(index.slot as int, k)),
                    region@,
                )),
            !(exists|k: int|
                0 <= k < self.children_of(index.slot as int).len() && region_contains(
                    #[trigger] self.mbr(self.child_slot(index.slot as int, k)),
                    region@,
                )) ==> (forall|k: int|
                0 <= k < self.children_of(index.slot as int).len() ==> region_enlargement(
                    self.mbr(self.child_slot(index.slot as int, c as int)),
                    region@,
                ) <= region_enlargement(
                    #[trigger] self.mbr(self.child_slot(index.slot as int, k)),
                    region@,
                )) && (forall|k: int|
                0 <= k < c ==> region_enlargement(
                    #[trigger] self.mbr(self.child_slot(index.slot as int, k)),
                    region@,
                ) > region_enlargement(
                    self.mbr(self.child_slot(index.slot as int, c as int)),
                    region@,
                )),
    {
        let ghost xs = index.slot as int;
        proof {
            assert forall|j: int|
                0 <= j < self.children_of(xs).len() implies self.valid_slot(
                #[trigger] self.child_slot(xs, j),
            ) && region_wf(self.mbr(self.child_slot(xs, j))) && self.mbr(
                self.child_slot(xs, j),
            ).len() == self.dim() by {
                self.lemma_child_facts(xs, j);
            }
        }
        let child_count = self.nodes.at(index).child_count();

        // Does any child's region already contain the entry?
        let mut k: usize = 0;
        while k < child_count
            invariant
                self.inv(),
                self.valid_index(index),
                xs == index.slot as int,
                child_count == self.children_of(xs).len(),
                k <= child_count,
                region_wf(region@),
                region@.len() == self.dim(),
                forall|j: int|
                    0 <= j < k ==> !region_contains(
                        #[trigger] self.mbr(self.child_slot(xs, j)),
                        region@,
                    ),
            decreases child_count - k,
        {
            let child = self.nodes.at(index).child_at(k);
            proof {
                self.lemma_child_facts(xs, k as int);
            }
            let contained = match self.nodes.at(child).get_region().contains_region(region) {
                Ok(b) => b,
                Err(_) => {
                    proof {
                        assert(false);
                    }
                    false
                },
            };
            if contained {
                proof {
                    assert(region_contains(self.mbr(self.child_slot(xs, k as int)), region@));
                }
                return k;
            }
            k += 1;
        }

        // No child contains the entry: pick the one whose region grows
        // least, keeping the first on ties.
        let first_child = self.nodes.at(index).child_at(0);
        proof {
            self.lemma_child_facts(xs, 0);
        }
        let mut best_k: usize = 0;
        let mut best_enl = self.enlargement_exec(self.nodes.at(first_child).get_region(), region);
        let mut k2: usize = 1;
        while k2 < child_count
            invariant
                self.inv(),
                self.valid_index(index),
                xs == index.slot as int,
                child_count == self.children_of(xs).len(),
                1 <= k2 <= child_count,
                (best_k as int) < k2,
                region_wf(region@),
                region@.len() == self.dim(),
                forall|j: int|
                    0 <= j < child_count ==> self.valid_slot(#[trigger] self.child_slot(xs, j))
                        && region_wf(self.mbr(self.child_slot(xs, j))) && self.mbr(
                        self.child_slot(xs, j),
                    ).len() == self.dim(),
                forall|j: int|
                    0 <= j < child_count ==> !region_contains(
                        #[trigger] self.mbr(self.child_slot(xs, j)),
                        region@,
                    ),
                best_enl as int == region_enlargement(
                    self.mbr(self.child_slot(xs, best_k as int)),
                    region@,
                ),
                forall|j: int|
                    0 <= j < k2 ==> region_enlargement(
                        self.mbr(self.child_slot(xs, best_k as int)),
                        region@,
                    ) <= region_enlargement(
                        #[trigger] self.mbr(self.child_slot(xs, j)),
                        region@,
                    ),
                forall|j: int|
                    0 <= j < best_k ==> region_enlargement(
                        #[trigger] self.mbr(self.child_slot(xs, j)),
                        region@,
                    ) > region_enlargement(
                        self.mbr(self.child_slot(xs, best_k as int)),
                        region@,
                    ),
            decreases child_count - k2,
        {
            let child = self.nodes.at(index).child_at(k2);
            proof {
                self.lemma_child_facts(xs, k2 as int);
            }
            let enl = self.enlargement_exec(self.nodes.at(child).get_region(), region);
            if enl < best_enl {
                best_k = k2;
                best_enl = enl;
            }
            k2 += 1;
        }
        best_k
    }

    /// Recursively descends to the level just above the leaves —
    /// choosing at each step the first child whose region already
    /// contains the entry, or else the child whose region grows least —
    /// and attaches the entry there.
    #[verifier::rlimit(100)]
    #[verifier::spinoff_prover]
    fn insert_at_node(&mut self, region: Region, data: ND, index: Index)
        requires
            old(self).inv(),
            old(self).valid_index(index),
            1 <= old(self).height_of(index.slot as int),
            old(self).height_of(index.slot as int) <= old(self).height(),
            region_wf(region@),
            region@.len() == old(self).dim(),
            region_contains(old(self).mbr(index.slot as int), region@),
        ensures
            final(self).inv(),
            final(self).same_shape_params(*old(self)),
            final(self).keeps_leaves_of(*old(self)),
            old(self).node_count() < final(self).node_count(),
            final(self).is_leaf(old(self).node_count()),
            final(self).node_at(old(self).node_count()).minimum_bounding_region@ == region@,
            final(self).node_at(old(self).node_count()).data == Some(data),
            forall|n: int|
                final(self).valid_slot(n) && #[trigger] final(self).is_leaf(n) ==> (old(
                    self,
                ).valid_slot(n) && old(self).is_leaf(n)) || n == old(self).node_count(),
            final(self).mbr(final(self).root_slot()) == old(self).mbr(old(self).root_slot()),
            forall|n: int|
                old(self).valid_slot(n) ==> region_contains(
                    region_union(old(self).mbr(n), region@),
                    #[trigger] final(self).mbr(n),
                ),
        decreases old(self).height_of(index.slot as int),
    {
        let ghost t0 = *self;
        let ghost xs = index.slot as int;
        let ghost hx = t0.height_of(xs);
        let ghost rv = region@;

        if self.has_child_leaf(index) || !self.nodes.at(index).has_children() {
            proof {
                if self.children_of(xs).len() > 0 {
                    let k = choose|k: int|
                        0 <= k < self.children_of(xs).len() && self.is_leaf(
                            #[trigger] self.child_slot(xs, k),
                        );
                    self.lemma_child_facts(xs, k);
                    assert(self.height_of(self.child_slot(xs, k)) == 0);
                } else {
                    assert(xs == t0.root_slot()) by {
                        if xs != t0.root_slot() {
                            assert(!t0.is_leaf(xs)) by {
                                assert(0 <= hx);
                            }
                            assert(t0.spec_min_children() <= t0.children_of(xs).len());
                        }
                    }
                    assert(t0.node_count() == 1);
                    assert(t0.height() == 1);
                }
                assert(hx == 1);
            }
            self.insert_leaf_at(region, data, index);
            proof {
                let tz = *self;
                assert forall|n: int|
                    t0.valid_slot(n) implies region_contains(
                    region_union(t0.mbr(n), rv),
                    #[trigger] tz.mbr(n),
                ) by {
                    assert(t0.mbr(n).len() == t0.dim());
                    lemma_union_contains_operands(t0.mbr(n), rv);
                    assert(region_contains(t0.mbr(n), tz.mbr(n)));
                    crate::geometry::region::lemma_contains_trans(
                        region_union(t0.mbr(n), rv),
                        t0.mbr(n),
                        tz.mbr(n),
                    );
                }
            }
            return;
        }
        let ghost count0 = self.children_of(xs).len();
        proof {
            assert(count0 > 0);
            assert forall|k: int| 0 <= k < count0 implies !self.is_leaf(
                #[trigger] self.child_slot(xs, k),
            ) by {}
            assert forall|k: int|
                0 <= k < count0 implies self.valid_slot(#[trigger] self.child_slot(xs, k))
                && self.height_of(self.child_slot(xs, k)) == hx - 1 && 1 <= self.height_of(
                self.child_slot(xs, k),
            ) && region_wf(self.mbr(self.child_slot(xs, k))) && self.mbr(
                self.child_slot(xs, k),
            ).len() == self.dim() && region_contains(
                self.mbr(xs),
                self.mbr(self.child_slot(xs, k)),
            ) by {
                self.lemma_child_facts(xs, k);
                assert(!self.is_leaf(self.child_slot(xs, k)));
            }
        }

        let best_k = self.choose_subtree(&region, index);
        let chosen = self.nodes.at(index).child_at(best_k);
        proof {
            self.lemma_child_facts(xs, best_k as int);
        }
        let chosen_contains = match self.nodes.at(chosen).get_region().contains_region(&region) {
            Ok(b) => b,
            Err(_) => {
                proof {
                    assert(false);
                }
                false
            },
        };
        if chosen_contains {
            self.insert_at_node(region, data, chosen);
            proof {
                let tz = *self;
                assert forall|n: int|
                    t0.valid_slot(n) implies region_contains(
                    region_union(t0.mbr(n), rv),
                    #[trigger] tz.mbr(n),
                ) by {
                    assert(region_contains(region_union(t0.mbr(n), rv), tz.mbr(n)));
                }
            }
            return;
        }
        // The chosen child's region must grow: overwrite it with the
        // union before descending — the only region growth on the way
        // down.
        let best_union = match self.nodes.at(chosen).get_region().combine_region(&region) {
            Ok(u) => u,
            Err(_) => {
                proof {
                    assert(false);
                }
                Region { coordinates: Vec::new() }
            },
        };
        let ghost cs = chosen.slot as int;
        let ghost t1 = *self;
        proof {
            assert(cs == self.child_slot(xs, best_k as int));
            lemma_union_contains_operands(self.mbr(cs), region@);
            lemma_union_wf(self.mbr(cs), region@);
            lemma_union_least(self.mbr(cs), region@, self.mbr(xs));
        }
        self.nodes.at_mut(chosen).set_minimum_bounding_region_unchecked(best_union);
        let ghost t2g = *self;
        proof {
            let t2 = *self;
            let u = region_union(t1.mbr(cs), region@);
            assert(t2.mbr(cs) == u);
            assert forall|n: int|
                t1.valid_slot(n) && n != cs implies #[trigger] t2.node_at(n) == t1.node_at(n) by {}
            assert(t2.node_at(cs).children == t1.node_at(cs).children && t2.node_at(cs).data
                == t1.node_at(cs).data && t2.node_at(cs).parent == t1.node_at(cs).parent);
            assert(t2.height_seq() == t1.height_seq());
            assert(t2.dim() == t1.dim()) by {
                assert(cs != t1.root_slot());
                assert(t2.node_at(t1.root_slot()) == t1.node_at(t1.root_slot()));
            }
            assert(t2.wf_params() && t2.wf_root());
            assert(t2.wf_regions()) by {
                assert forall|n: int| t2.valid_slot(n) implies region_wf(#[trigger] t2.mbr(n))
                    && t2.mbr(n).len() == t2.dim() by {
                    if n == cs {
                    } else {
                        assert(t2.node_at(n) == t1.node_at(n));
                        assert(region_wf(t1.mbr(n)) && t1.mbr(n).len() == t1.dim());
                    }
                }
            }
            assert forall|n: int, k3: int|
                #![trigger t2.child_slot(n, k3)]
                t2.valid_slot(n) && 0 <= k3 < t2.children_of(n).len() implies (t2.children_of(
                    n,
                )[k3].generation == 0 && t2.valid_slot(t2.child_slot(n, k3)) && t2.child_slot(
                    n,
                    k3,
                ) != t2.root_slot() && t2.parent_of(t2.child_slot(n, k3)) == Some(
                    (Index { slot: n as usize, generation: 0 }),
                ) && t2.height_of(t2.child_slot(n, k3)) == t2.height_of(n) - 1 && region_contains(
                    t2.mbr(n),
                    t2.mbr(t2.child_slot(n, k3)),
                ) && t2.child_slot(n, k3) == t1.child_slot(n, k3)) by {
                assert(t2.children_of(n) == t1.children_of(n)) by {
                    if n != cs {
                        assert(t2.node_at(n) == t1.node_at(n));
                    }
                }
                t1.lemma_child_facts(n, k3);
                let c = t2.child_slot(n, k3);
                assert(t2.parent_of(c) == t1.parent_of(c) && t2.height_of(c) == t1.height_of(c))
                    by {
                    if c != cs {
                        assert(t2.node_at(c) == t1.node_at(c));
                    }
                }
                assert(region_contains(t2.mbr(n), t2.mbr(c))) by {
                    if n == xs && c == cs {
                        assert(region_contains(t1.mbr(xs), u));
                        assert(t2.mbr(n) == t1.mbr(n));
                    } else if c == cs {
                        assert(n == xs) by {
                            assert(t1.parent_of(cs) == Some(index));
                            assert(t1.parent_of(c) == Some(
                                (Index { slot: n as usize, generation: 0 }),
                            ));
                        }
                    } else if n == cs {
                        assert(region_contains(t1.mbr(cs), t1.mbr(c)));
                        crate::geometry::region::lemma_contains_trans(u, t1.mbr(cs), t1.mbr(c));
                        assert(t2.mbr(c) == t1.mbr(c));
                    } else {
                        assert(t2.mbr(n) == t1.mbr(n) && t2.mbr(c) == t1.mbr(c));
                    }
                }
            }
            assert forall|n: int, ka: int, kb: int|
                #![trigger t2.child_slot(n, ka), t2.child_slot(n, kb)]
                t2.valid_slot(n) && 0 <= ka < t2.children_of(n).len() && 0 <= kb
                    < t2.children_of(n).len() && ka != kb implies t2.child_slot(n, ka)
                    != t2.child_slot(n, kb) by {
                assert(t2.children_of(n) == t1.children_of(n)) by {
                    if n != cs {
                        assert(t2.node_at(n) == t1.node_at(n));
                    }
                }
                assert(t1.child_slot(n, ka) != t1.child_slot(n, kb));
            }
            assert forall|n: int|
                t2.valid_slot(n) && n != t2.root_slot() implies (#[trigger] t2.parent_of(
                n,
            ) is Some && t2.parent_gen_ok(n) && t2.valid_slot(t2.parent_slot(n))
                && t2.listed_by_parent(n)) by {
                assert(t2.parent_of(n) == t1.parent_of(n)) by {
                    if n != cs {
                        assert(t2.node_at(n) == t1.node_at(n));
                    }
                }
                assert(t1.parent_of(n) is Some && t1.listed_by_parent(n));
                let p = t1.parent_slot(n);
                let k3 = choose|k3: int|
                    0 <= k3 < t1.children_of(p).len() && #[trigger] t1.child_slot(p, k3) == n;
                assert(t2.children_of(p) == t1.children_of(p)) by {
                    if p != cs {
                        assert(t2.node_at(p) == t1.node_at(p));
                    }
                }
                assert(t2.child_slot(p, k3) == n);
                assert(t2.parent_slot(n) == p);
                t1.lemma_parent_facts(n);
            }
            assert forall|n: int|
                t2.valid_slot(n) implies 0 <= #[trigger] t2.height_of(n) <= t2.node_count() && (
                t2.is_leaf(n) <==> t2.height_of(n) == 0) by {
                assert(t2.height_of(n) == t1.height_of(n));
                assert(0 <= t1.height_of(n) <= t1.node_count());
                assert(t2.is_leaf(n) == t1.is_leaf(n)) by {
                    if n != cs {
                        assert(t2.node_at(n) == t1.node_at(n));
                    }
                }
            }
            assert(t2.core_inv());
            assert(t2.fanout_ok()) by {
                assert forall|n: int|
                    t2.valid_slot(n) implies #[trigger] t2.children_of(n) == t1.children_of(n)
                        && (t2.is_leaf(n) <==> t1.is_leaf(n)) by {
                    if n != cs {
                        assert(t2.node_at(n) == t1.node_at(n));
                    }
                }
                assert(t2.children_of(t2.root_slot()) == t1.children_of(t1.root_slot()));
            }
            assert(t2.inv());
            assert(t2.mbr(t2.root_slot()) == t1.mbr(t1.root_slot())) by {
                assert(t2.node_at(t1.root_slot()) == t1.node_at(t1.root_slot()));
            }
            assert(region_contains(t2.mbr(cs), region@));
            assert(t2.height_of(cs) == hx - 1);
            assert(t2.height_of(cs) <= t2.height()) by {
                assert(t2.height() == t1.height());
            }
        }
        self.insert_at_node(region, data, chosen);
        proof {
            let tz = *self;
            assert forall|n: int|
                t0.valid_slot(n) implies region_contains(
                region_union(t0.mbr(n), rv),
                #[trigger] tz.mbr(n),
            ) by {
                assert(region_contains(region_union(t2g.mbr(n), rv), tz.mbr(n)));
                if n == cs {
                    assert(t2g.mbr(cs) == region_union(t0.mbr(cs), rv));
                    crate::geometry::region::lemma_union_absorb(t0.mbr(cs), rv);
                    assert(region_union(t2g.mbr(cs), rv) == region_union(t0.mbr(cs), rv));
                } else {
                    assert(t2g.mbr(n) == t0.mbr(n)) by {
                        assert(t2g.node_at(n) == t1.node_at(n));
                    }
                }
            }
            assert(tz.keeps_leaves_of(t0)) by {
                assert forall|n: int|
                    t0.valid_slot(n) && t0.is_leaf(n) implies tz.is_leaf(n) && (
                    #[trigger] tz.node_at(n)).minimum_bounding_region@ == t0.node_at(
                        n,
                    ).minimum_bounding_region@ && tz.node_at(n).data == t0.node_at(n).data by {
                    assert(n != cs) by {
                        assert(!t0.is_leaf(cs)) by {
                            assert(0 <= t0.height_of(cs));
                        }
                    }
                }
            }
            assert forall|n: int|
                tz.valid_slot(n) && #[trigger] tz.is_leaf(n) implies (t0.valid_slot(n)
                    && t0.is_leaf(n)) || n == t0.node_count() by {
                if n != t0.node_count() && t0.valid_slot(n) {
                    assert(n != cs || !tz.is_leaf(n));
                }
            }
        }
    }

    /// Attempts to insert an entry with the given region and payload
    /// into the tree.
    ///
    /// On success the tree gains exactly one leaf holding the entry, in
    /// the next free slot; every existing leaf keeps its slot, region
    /// and payload; the root's region becomes the entry's region on
    /// the first insertion, or its previous region united with the
    /// entry's region afterwards; and no node's region ever exceeds its
    /// old region united with the entry's rectangle — regions grow only
    /// by absorbing the entry, and splits may only tighten them.  The
    /// structural invariant holds again when the call returns.
    ///
    /// # Errors
    ///
    /// Fails without changing the tree when `region` does not have the
    /// same dimension as this tree.
    pub fn insert(&mut self, region: Region, data: ND) -> (r: Result<(), ShapelikeError>)
        requires
            old(self).inv(),
            region_wf(region@),
        ensures
            final(self).inv(),
            match r {
                Ok(()) => {
                    &&& region@.len() == old(self).dim()
                    &&& final(self).same_shape_params(*old(self))
                    &&& final(self).keeps_leaves_of(*old(self))
                    &&& old(self).node_count() < final(self).node_count()
                    &&& final(self).is_leaf(old(self).node_count())
                    &&& final(self).node_at(old(self).node_count()).minimum_bounding_region@
                        == region@
                    &&& final(self).node_at(old(self).node_count()).data == Some(data)
                    &&& forall|n: int|
                        final(self).valid_slot(n) && #[trigger] final(self).is_leaf(n) ==> (old(
                            self,
                        ).valid_slot(n) && old(self).is_leaf(n)) || n == old(self).node_count()
                    &&& final(self).mbr(final(self).root_slot()) == (if old(self).node_count()
                        == 1 {
                        region@
                    } else {
                        region_union(old(self).mbr(old(self).root_slot()), region@)
                    })
                    &&& forall|n: int|
                        old(self).valid_slot(n) ==> region_contains(
                            region_union(old(self).mbr(n), region@),
                            #[trigger] final(self).mbr(n),
                        )
                },
                Err(e) => {
                    &&& *final(self) == *old(self)
                    &&& region@.len() != old(self).dim()
                    &&& e == ShapelikeError::UnmatchedDimensions(
                        old(self).dim() as usize,
                        region.coordinates.len(),
                    )
                },
            },
    {
        let ghost t0 = *self;
        let ghost rs = t0.root_slot();
        let ghost rv = region@;
        let root = self.root;
        let tree_dim = self.nodes.at(root).get_region().get_dimension();
        if region.get_dimension() != tree_dim {
            return Err(ShapelikeError::UnmatchedDimensions(tree_dim, region.coordinates.len()));
        }
        let is_first = self.nodes.len() == 1;
        let target = region.clone();
        if is_first {
            self.nodes.at_mut(root).set_minimum_bounding_region_unchecked(target);
        } else {
            self.nodes.at_mut(root).combine_region_unchecked(&target);
        }
        let ghost t1g = *self;
        proof {
            let t1 = *self;
            assert forall|n: int|
                t0.valid_slot(n) && n != rs implies #[trigger] t1.node_at(n) == t0.node_at(n) by {}
            assert(t1.node_at(rs).children == t0.node_at(rs).children && t1.node_at(rs).data
                == t0.node_at(rs).data && t1.node_at(rs).parent == t0.node_at(rs).parent);
            assert(t1.mbr(rs) == (if t0.node_count() == 1 {
                region@
            } else {
                region_union(t0.mbr(rs), region@)
            }));
            assert(region_wf(t1.mbr(rs)) && t1.mbr(rs).len() == t0.dim()) by {
                if t0.node_count() != 1 {
                    lemma_union_wf(t0.mbr(rs), region@);
                }
            }
            assert(t1.dim() == t0.dim());
            assert(region_contains(t1.mbr(rs), region@)) by {
                if t0.node_count() != 1 {
                    lemma_union_contains_operands(t0.mbr(rs), region@);
                } else {
                    assert(region_contains(region@, region@));
                }
            }
            assert(t1.wf_params() && t1.wf_root());
            assert(t1.wf_regions()) by {
                assert forall|n: int| t1.valid_slot(n) implies region_wf(#[trigger] t1.mbr(n))
                    && t1.mbr(n).len() == t1.dim() by {
                    if n != rs {
                        assert(t1.node_at(n) == t0.node_at(n));
                        assert(region_wf(t0.mbr(n)) && t0.mbr(n).len() == t0.dim());
                    }
                }
            }
            assert forall|n: int, k: int|
                #![trigger t1.child_slot(n, k)]
                t1.valid_slot(n) && 0 <= k < t1.children_of(n).len() implies (t1.children_of(
                    n,
                )[k].generation == 0 && t1.valid_slot(t1.child_slot(n, k)) && t1.child_slot(n, k)
                    != t1.root_slot() && t1.parent_of(t1.child_slot(n, k)) == Some(
                    (Index { slot: n as usize, generation: 0 }),
                ) && t1.height_of(t1.child_slot(n, k)) == t1.height_of(n) - 1 && region_contains(
                    t1.mbr(n),
                    t1.mbr(t1.child_slot(n, k)),
                )) by {
                assert(t1.children_of(n) == t0.children_of(n)) by {
                    if n != rs {
                        assert(t1.node_at(n) == t0.node_at(n));
                    }
                }
                t0.lemma_child_facts(n, k);
                let c = t1.child_slot(n, k);
                assert(c != rs);
                assert(t1.node_at(c) == t0.node_at(c));
                assert(region_contains(t1.mbr(n), t1.mbr(c))) by {
                    if n == rs {
                        assert(region_contains(t0.mbr(rs), t0.mbr(c)));
                        if t0.node_count() != 1 {
                            lemma_union_contains_operands(t0.mbr(rs), region@);
                            crate::geometry::region::lemma_contains_trans(
                                t1.mbr(rs),
                                t0.mbr(rs),
                                t0.mbr(c),
                            );
                        } else {
                            assert(t0.children_of(rs).len() == 0);
                        }
                    } else {
                        assert(t1.mbr(n) == t0.mbr(n));
                    }
                }
            }
            assert forall|n: int, ka: int, kb: int|
                #![trigger t1.child_slot(n, ka), t1.child_slot(n, kb)]
                t1.valid_slot(n) && 0 <= ka < t1.children_of(n).len() && 0 <= kb
                    < t1.children_of(n).len() && ka != kb implies t1.child_slot(n, ka)
                    != t1.child_slot(n, kb) by {
                assert(t1.children_of(n) == t0.children_of(n)) by {
                    if n != rs {
                        assert(t1.node_at(n) == t0.node_at(n));
                    }
                }
                assert(t0.child_slot(n, ka) != t0.child_slot(n, kb));
            }
            assert forall|n: int|
                t1.valid_slot(n) && n != t1.root_slot() implies (#[trigger] t1.parent_of(
                n,
            ) is Some && t1.parent_gen_ok(n) && t1.valid_slot(t1.parent_slot(n))
                && t1.listed_by_parent(n)) by {
                assert(t1.node_at(n) == t0.node_at(n));
                assert(t0.parent_of(n) is Some && t0.listed_by_parent(n));
                let p = t0.parent_slot(n);
                let k3 = choose|k3: int|
                    0 <= k3 < t0.children_of(p).len() && #[trigger] t0.child_slot(p, k3) == n;
                assert(t1.children_of(p) == t0.children_of(p)) by {
                    if p != rs {
                        assert(t1.node_at(p) == t0.node_at(p));
                    }
                }
                assert(t1.child_slot(p, k3) == n);
                assert(t1.parent_slot(n) == p);
                t0.lemma_parent_facts(n);
            }
            assert forall|n: int|
                t1.valid_slot(n) implies 0 <= #[trigger] t1.height_of(n) <= t1.node_count() && (
                t1.is_leaf(n) <==> t1.height_of(n) == 0) by {
                assert(t1.height_of(n) == t0.height_of(n));
                assert(0 <= t0.height_of(n) <= t0.node_count());
                assert(t1.is_leaf(n) == t0.is_leaf(n)) by {
                    if n != rs {
                        assert(t1.node_at(n) == t0.node_at(n));
                    }
                }
            }
            assert(t1.core_inv());
            assert(t1.fanout_ok()) by {
                assert forall|n: int|
                    t1.valid_slot(n) implies #[trigger] t1.children_of(n) == t0.children_of(n)
                        && (t1.is_leaf(n) <==> t0.is_leaf(n)) by {
                    if n != rs {
                        assert(t1.node_at(n) == t0.node_at(n));
                    }
                }
            }
            assert(t1.inv());
            assert(1 <= t1.height_of(rs)) by {
                assert(!t1.is_leaf(rs));
            }
        }
        self.insert_at_node(region, data, root);
        proof {
            let tz = *self;
            assert forall|n: int|
                t0.valid_slot(n) implies region_contains(
                region_union(t0.mbr(n), rv),
                #[trigger] tz.mbr(n),
            ) by {
                assert(region_contains(region_union(t1g.mbr(n), rv), tz.mbr(n)));
                if n == rs {
                    assert(t0.mbr(rs).len() == t0.dim());
                    if t0.node_count() == 1 {
                        assert(t1g.mbr(rs) == rv);
                        assert(region_union(rv, rv) =~= rv);
                        assert(region_union(t1g.mbr(rs), rv) == rv);
                        lemma_union_contains_operands(t0.mbr(rs), rv);
                        crate::geometry::region::lemma_contains_trans(
                            region_union(t0.mbr(rs), rv),
                            rv,
                            tz.mbr(rs),
                        );
                    } else {
                        assert(t1g.mbr(rs) == region_union(t0.mbr(rs), rv));
                        crate::geometry::region::lemma_union_absorb(t0.mbr(rs), rv);
                        assert(region_union(t1g.mbr(rs), rv) == region_union(t0.mbr(rs), rv));
                    }
                } else {
                    assert(t1g.mbr(n) == t0.mbr(n)) by {
                        assert(t1g.node_at(n) == t0.node_at(n));
                    }
                }
            }
            assert(tz.keeps_leaves_of(t0)) by {
                assert forall|n: int|
                    t0.valid_slot(n) && t0.is_leaf(n) implies tz.is_leaf(n) && (
                    #[trigger] tz.node_at(n)).minimum_bounding_region@ == t0.node_at(
                        n,
                    ).minimum_bounding_region@ && tz.node_at(n).data == t0.node_at(n).data by {
                    assert(n != rs) by {
                        assert(!t0.is_leaf(rs));
                    }
                }
            }
            assert(tz.mbr(tz.root_slot()) == (if t0.node_count() == 1 {
                region@
            } else {
                region_union(t0.mbr(rs), region@)
            }));
        }
        Ok(())
    }
}

} // verus!
