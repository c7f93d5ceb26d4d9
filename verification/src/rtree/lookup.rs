//! Queries: a single downward search engine, parametrised by the
//! predicate that decides whether to descend into a subtree.
//!
//! The engine returns exactly the leaves whose regions satisfy the
//! predicate: soundness is immediate from the final check at each leaf,
//! and completeness follows from parent containment — a leaf's region
//! satisfying the predicate forces every ancestor's region to satisfy
//! it too, so no pruned subtree can hide a match.

use vstd::prelude::*;

use crate::geometry::point::Point;
use crate::geometry::region::{
    lemma_contains_point_monotone, lemma_contains_trans, lemma_intersects_monotone,
    region_contains, region_contains_point, region_intersects, Region,
};
use crate::geometry::ShapelikeError;
use crate::rtree::arena::Index;
use crate::rtree::RTree;

verus! {

/// A query against the tree: the shapes a downward search can look for,
/// each paired with the predicate it applies to a node's region.
pub enum Query {
    /// Find the leaves whose regions contain this point.
    Point(Point),
    /// Find the leaves whose regions intersect this region.
    Intersection(Region),
    /// Find the leaves whose regions contain this region.
    Containment(Region),
}

/// The dimension of the shape a query carries.
pub open spec fn query_dim(q: Query) -> int {
    match q {
        Query::Point(p) => p@.len() as int,
        Query::Intersection(r) => r@.len() as int,
        Query::Containment(r) => r@.len() as int,
    }
}

/// Whether a region satisfies the query's predicate.
pub open spec fn query_matches(q: Query, mbr: Seq<(int, int)>) -> bool {
    match q {
        Query::Point(p) => region_contains_point(mbr, p@),
        Query::Intersection(r) => region_intersects(mbr, r@),
        Query::Containment(r) => region_contains(mbr, r@),
    }
}

/// A region containing a matching region matches as well: the reason a
/// pruned subtree cannot hide a match.
pub proof fn lemma_query_monotone(q: Query, outer: Seq<(int, int)>, inner: Seq<(int, int)>)
    requires
        region_contains(outer, inner),
        query_matches(q, inner),
    ensures
        query_matches(q, outer),
{
    match q {
        Query::Point(p) => {
            lemma_contains_point_monotone(outer, inner, p@);
        },
        Query::Intersection(r) => {
            lemma_intersects_monotone(outer, inner, r@);
        },
        Query::Containment(r) => {
            lemma_contains_trans(outer, inner, r@);
        },
    }
}

/// Evaluates the query's predicate against one region.
fn query_test(query: &Query, region: &Region) -> (b: bool)
    requires
        region@.len() == query_dim(*query),
    ensures
        b == query_matches(*query, region@),
{
    match query {
        Query::Point(p) => match region.contains_point(p) {
            Ok(b) => b,
            Err(_) => {
                proof {
                    assert(false);
                }
                false
            },
        },
        Query::Intersection(r) => match region.intersects_region(r) {
            Ok(b) => b,
            Err(_) => {
                proof {
                    assert(false);
                }
                false
            },
        },
        Query::Containment(r) => match region.contains_region(r) {
            Ok(b) => b,
            Err(_) => {
                proof {
                    assert(false);
                }
                false
            },
        },
    }
}

impl<ND> RTree<ND> {
    /// Depth-first search below `index`: appends to `hits` the handle
    /// of every leaf in that subtree whose region satisfies the query,
    /// in depth-first order, earlier children first.
    #[verifier::rlimit(100)]
    #[verifier::spinoff_prover]
    fn search(&self, query: &Query, index: Index, hits: &mut Vec<Index>)
        requires
            self.inv(),
            self.valid_index(index),
            query_dim(*query) == self.dim(),
        ensures
            old(hits)@.len() <= final(hits)@.len(),
            forall|j: int| 0 <= j < old(hits)@.len() ==> #[trigger] final(hits)@[j] == old(hits)@[j],
            forall|j: int|
                old(hits)@.len() <= j < final(hits)@.len() ==> (#[trigger] final(hits)@[j]).generation == 0 && self.valid_slot(final(hits)@[j].slot as int)
                    && self.is_leaf(final(hits)@[j].slot as int) && self.in_subtree(
                    index.slot as int,
                    final(hits)@[j].slot as int,
                ) && (self.is_leaf(index.slot as int) || query_matches(
                    *query,
                    self.mbr(final(hits)@[j].slot as int),
                )),
            forall|j1: int, j2: int|
                old(hits)@.len() <= j1 < j2 < final(hits)@.len() ==> (#[trigger] final(hits)@[j1]).slot != (#[trigger] final(hits)@[j2]).slot,
            forall|j1: int, j2: int|
                old(hits)@.len() <= j1 < j2 < final(hits)@.len() ==> self.dfs_before(
                    (#[trigger] final(hits)@[j1]).slot as int,
                    (#[trigger] final(hits)@[j2]).slot as int,
                ),
            forall|l: int|
                self.valid_slot(l) && self.is_leaf(l) && self.in_subtree(index.slot as int, l)
                    && query_matches(*query, #[trigger] self.mbr(l)) ==> RTree::<ND>::slot_in(
                    final(hits)@,
                    l,
                ),
        decreases self.height_of(index.slot as int),
    {
        let ghost xs = index.slot as int;
        proof {
            assert(0 <= self.height_of(xs));
        }
        if self.nodes.at(index).is_leaf() {
            hits.push(index);
            proof {
                self.lemma_subtree_refl(xs);
                assert forall|l: int|
                    self.valid_slot(l) && self.is_leaf(l) && self.in_subtree(xs, l)
                        && query_matches(*query, #[trigger] self.mbr(l)) implies
                    RTree::<ND>::slot_in(hits@, l) by {
                    self.lemma_subtree_of_leaf(xs, l);
                    assert(hits@[hits@.len() - 1].slot == l);
                }
            }
            return;
        }
        let child_count = self.nodes.at(index).child_count();
        let ghost len0 = hits@.len() as int;
        let mut k: usize = 0;
        while k < child_count
            invariant
                self.inv(),
                self.valid_index(index),
                xs == index.slot as int,
                !self.is_leaf(xs),
                query_dim(*query) == self.dim(),
                child_count == self.children_of(xs).len(),
                k <= child_count,
                len0 <= hits@.len(),
                forall|j: int| 0 <= j < len0 ==> #[trigger] hits@[j] == old(hits)@[j],
                len0 == old(hits)@.len(),
                forall|j: int|
                    len0 <= j < hits@.len() ==> (#[trigger] hits@[j]).generation == 0
                        && self.valid_slot(hits@[j].slot as int) && self.is_leaf(
                        hits@[j].slot as int,
                    ) && query_matches(*query, self.mbr(hits@[j].slot as int)) && exists|j2: int|
                        0 <= j2 < k && self.in_subtree(
                            #[trigger] self.child_slot(xs, j2),
                            hits@[j].slot as int,
                        ),
                forall|j1: int, j2: int|
                    len0 <= j1 < j2 < hits@.len() ==> (#[trigger] hits@[j1]).slot != (
                    #[trigger] hits@[j2]).slot,
                forall|j1: int, j2: int|
                    len0 <= j1 < j2 < hits@.len() ==> self.dfs_before(
                        (#[trigger] hits@[j1]).slot as int,
                        (#[trigger] hits@[j2]).slot as int,
                    ),
                forall|l: int, j2: int|
                    #![trigger self.in_subtree(self.child_slot(xs, j2), l)]
                    self.valid_slot(l) && self.is_leaf(l) && 0 <= j2 < k && self.in_subtree(
                        self.child_slot(xs, j2),
                        l,
                    ) && query_matches(*query, self.mbr(l)) ==> RTree::<ND>::slot_in(hits@, l),
            decreases child_count - k,
        {
            let child = self.nodes.at(index).child_at(k);
            proof {
                self.lemma_child_facts(xs, k as int);
            }
            let descend = query_test(query, self.nodes.at(child).get_region());
            if descend {
                let ghost pre = hits@;
                self.search(query, child, hits);
                proof {
                    let cslot = child.slot as int;
                    assert forall|j: int|
                        len0 <= j < hits@.len() implies (#[trigger] hits@[j]).generation == 0
                        && self.valid_slot(hits@[j].slot as int) && self.is_leaf(
                        hits@[j].slot as int,
                    ) && query_matches(*query, self.mbr(hits@[j].slot as int)) && exists|j2: int|
                        0 <= j2 < k + 1 && self.in_subtree(
                            #[trigger] self.child_slot(xs, j2),
                            hits@[j].slot as int,
                        ) by {
                        if j < pre.len() {
                            let j2 = choose|j2: int|
                                0 <= j2 < k && self.in_subtree(
                                    #[trigger] self.child_slot(xs, j2),
                                    pre[j].slot as int,
                                );
                            assert(hits@[j] == pre[j]);
                            assert(self.in_subtree(self.child_slot(xs, j2), hits@[j].slot as int));
                        } else {
                            assert(self.in_subtree(cslot, hits@[j].slot as int));
                            if self.is_leaf(cslot) {
                                self.lemma_subtree_of_leaf(cslot, hits@[j].slot as int);
                                assert(hits@[j].slot as int == cslot);
                            }
                            assert(query_matches(*query, self.mbr(hits@[j].slot as int)));
                            assert(self.child_slot(xs, k as int) == cslot);
                        }
                    }
                    assert forall|j1: int, j2: int|
                        len0 <= j1 < j2 < hits@.len() implies (#[trigger] hits@[j1]).slot != (
                    #[trigger] hits@[j2]).slot by {
                        if j1 < pre.len() && j2 >= pre.len() {
                            let ja = choose|ja: int|
                                0 <= ja < k && self.in_subtree(
                                    #[trigger] self.child_slot(xs, ja),
                                    pre[j1].slot as int,
                                );
                            assert(self.in_subtree(self.child_slot(xs, k as int),
                                hits@[j2].slot as int));
                            self.lemma_sibling_subtrees_disjoint(
                                xs,
                                ja,
                                k as int,
                                hits@[j1].slot as int,
                            );
                        }
                    }
                    assert forall|j1: int, j2: int|
                        len0 <= j1 < j2 < hits@.len() implies self.dfs_before(
                        (#[trigger] hits@[j1]).slot as int,
                        (#[trigger] hits@[j2]).slot as int,
                    ) by {
                        if j2 < pre.len() {
                            assert(hits@[j1] == pre[j1] && hits@[j2] == pre[j2]);
                        } else if j1 < pre.len() {
                            let ja = choose|ja: int|
                                0 <= ja < k && self.in_subtree(
                                    #[trigger] self.child_slot(xs, ja),
                                    pre[j1].slot as int,
                                );
                            assert(hits@[j1] == pre[j1]);
                            assert(self.in_subtree(
                                self.child_slot(xs, ja),
                                hits@[j1].slot as int,
                            ));
                            assert(self.in_subtree(
                                self.child_slot(xs, k as int),
                                hits@[j2].slot as int,
                            ));
                            assert(self.dfs_before(
                                hits@[j1].slot as int,
                                hits@[j2].slot as int,
                            ));
                        }
                    }
                    assert forall|l: int, j2: int|
                        #![trigger self.in_subtree(self.child_slot(xs, j2), l)]
                        self.valid_slot(l) && self.is_leaf(l) && 0 <= j2 < k + 1
                            && self.in_subtree(self.child_slot(xs, j2), l) && query_matches(
                            *query,
                            self.mbr(l),
                        ) implies RTree::<ND>::slot_in(hits@, l) by {
                        if j2 < k {
                            let jj = choose|jj: int|
                                0 <= jj < pre.len() && (#[trigger] pre[jj]).slot == l;
                            assert(hits@[jj] == pre[jj]);
                            assert(hits@[jj].slot == l);
                        }
                    }
                }
            } else {
                proof {
                    let cslot = child.slot as int;
                    assert forall|l: int, j2: int|
                        #![trigger self.in_subtree(self.child_slot(xs, j2), l)]
                        self.valid_slot(l) && self.is_leaf(l) && 0 <= j2 < k + 1
                            && self.in_subtree(self.child_slot(xs, j2), l) && query_matches(
                            *query,
                            self.mbr(l),
                        ) implies RTree::<ND>::slot_in(hits@, l) by {
                        if j2 == k {
                            self.lemma_subtree_mbr_contained(cslot, l);
                            lemma_query_monotone(*query, self.mbr(cslot), self.mbr(l));
                        }
                    }
                }
            }
            k += 1;
        }
        proof {
            assert forall|j: int|
                len0 <= j < hits@.len() implies self.in_subtree(
                    xs,
                    (#[trigger] hits@[j]).slot as int,
                ) by {
                let j2 = choose|j2: int|
                    0 <= j2 < child_count && self.in_subtree(
                        #[trigger] self.child_slot(xs, j2),
                        hits@[j].slot as int,
                    );
                self.lemma_child_in_subtree(xs, j2);
                self.lemma_subtree_trans(xs, self.child_slot(xs, j2), hits@[j].slot as int);
            }
            assert forall|l: int|
                self.valid_slot(l) && self.is_leaf(l) && self.in_subtree(xs, l) && query_matches(
                    *query,
                    #[trigger] self.mbr(l),
                ) implies RTree::<ND>::slot_in(hits@, l) by {
                assert(l != xs);
                self.lemma_step_down(xs, l);
                let k2 = choose|k2: int|
                    0 <= k2 < self.children_of(xs).len() && #[trigger] self.in_subtree(
                        self.child_slot(xs, k2),
                        l,
                    );
                assert(self.in_subtree(self.child_slot(xs, k2), l));
            }
        }
    }

    /// The handles of the leaves whose regions contain the given point.
    ///
    /// Returns exactly the entries whose rectangles contain `point`:
    /// every returned handle refers to a leaf whose region contains the
    /// point, the handles are pairwise distinct, every such leaf is
    /// returned, and the handles come in depth-first order, earlier
    /// children first ([`RTree::dfs_before`]).
    ///
    /// # Errors
    ///
    /// Fails when `point` does not have the tree's dimension.
    pub fn point_lookup(&self, point: &Point) -> (r: Result<Vec<Index>, ShapelikeError>)
        requires
            self.inv(),
        ensures
            match r {
                Ok(v) => {
                    &&& point@.len() == self.dim()
                    &&& forall|j: int|
                        0 <= j < v@.len() ==> (#[trigger] v@[j]).generation == 0
                            && self.valid_slot(v@[j].slot as int) && self.is_leaf(
                            v@[j].slot as int,
                        ) && region_contains_point(self.mbr(v@[j].slot as int), point@)
                    &&& forall|j1: int, j2: int|
                        0 <= j1 < j2 < v@.len() ==> (#[trigger] v@[j1]).slot != (
                        #[trigger] v@[j2]).slot
                    &&& forall|j1: int, j2: int|
                        0 <= j1 < j2 < v@.len() ==> self.dfs_before(
                            (#[trigger] v@[j1]).slot as int,
                            (#[trigger] v@[j2]).slot as int,
                        )
                    &&& forall|l: int|
                        self.valid_slot(l) && self.is_leaf(l) && region_contains_point(
                            #[trigger] self.mbr(l),
                            point@,
                        ) ==> RTree::<ND>::slot_in(v@, l)
                },
                Err(e) => {
                    &&& point@.len() != self.dim()
                    &&& e == ShapelikeError::UnmatchedDimensions(
                        self.dim() as usize,
                        point.coordinates.len(),
                    )
                },
            },
    {
        let tree_dim = self.nodes.at(self.root).get_region().get_dimension();
        if point.get_dimension() != tree_dim {
            return Err(ShapelikeError::UnmatchedDimensions(tree_dim, point.coordinates.len()));
        }
        let query = Query::Point(point.clone());
        let mut hits: Vec<Index> = Vec::new();
        self.search(&query, self.root, &mut hits);
        proof {
            self.lemma_lookup_completeness_seed(query, hits@);
        }
        Ok(hits)
    }

    /// Converts the engine's subtree-of-root completeness into plain
    /// completeness: every matching leaf is reachable from the root.
    proof fn lemma_lookup_completeness_seed(&self, query: Query, v: Seq<Index>)
        requires
            self.inv(),
            forall|l: int|
                self.valid_slot(l) && self.is_leaf(l) && self.in_subtree(self.root_slot(), l)
                    && query_matches(query, #[trigger] self.mbr(l)) ==> RTree::<ND>::slot_in(v, l),
        ensures
            forall|l: int|
                self.valid_slot(l) && self.is_leaf(l) && query_matches(
                    query,
                    #[trigger] self.mbr(l),
                ) ==> RTree::<ND>::slot_in(v, l),
    {
        assert forall|l: int|
            self.valid_slot(l) && self.is_leaf(l) && query_matches(
                query,
                #[trigger] self.mbr(l),
            ) implies RTree::<ND>::slot_in(v, l) by {
            self.lemma_root_reaches_all(l);
        }
    }

    /// The handles of the leaves whose regions intersect the given
    /// region (touching borders count).
    ///
    /// Returns exactly the entries whose rectangles intersect `region`,
    /// with the same guarantees as [`RTree::point_lookup`].
    ///
    /// # Errors
    ///
    /// Fails when `region` does not have the tree's dimension.
    pub fn region_intersection_lookup(&self, region: &Region) -> (r: Result<
        Vec<Index>,
        ShapelikeError,
    >)
        requires
            self.inv(),
        ensures
            match r {
                Ok(v) => {
                    &&& region@.len() == self.dim()
                    &&& forall|j: int|
                        0 <= j < v@.len() ==> (#[trigger] v@[j]).generation == 0
                            && self.valid_slot(v@[j].slot as int) && self.is_leaf(
                            v@[j].slot as int,
                        ) && region_intersects(self.mbr(v@[j].slot as int), region@)
                    &&& forall|j1: int, j2: int|
                        0 <= j1 < j2 < v@.len() ==> (#[trigger] v@[j1]).slot != (
                        #[trigger] v@[j2]).slot
                    &&& forall|j1: int, j2: int|
                        0 <= j1 < j2 < v@.len() ==> self.dfs_before(
                            (#[trigger] v@[j1]).slot as int,
                            (#[trigger] v@[j2]).slot as int,
                        )
                    &&& forall|l: int|
                        self.valid_slot(l) && self.is_leaf(l) && region_intersects(
                            #[trigger] self.mbr(l),
                            region@,
                        ) ==> RTree::<ND>::slot_in(v@, l)
                },
                Err(e) => {
                    &&& region@.len() != self.dim()
                    &&& e == ShapelikeError::UnmatchedDimensions(
                        self.dim() as usize,
                        region.coordinates.len(),
                    )
                },
            },
    {
        let tree_dim = self.nodes.at(self.root).get_region().get_dimension();
        if region.get_dimension() != tree_dim {
            return Err(ShapelikeError::UnmatchedDimensions(tree_dim, region.coordinates.len()));
        }
        let query = Query::Intersection(region.clone());
        let mut hits: Vec<Index> = Vec::new();
        self.search(&query, self.root, &mut hits);
        proof {
            self.lemma_lookup_completeness_seed(query, hits@);
        }
        Ok(hits)
    }

    /// The handles of the leaves whose regions contain the given
    /// region.
    ///
    /// Returns exactly the entries whose rectangles contain `region`,
    /// with the same guarantees as [`RTree::point_lookup`].
    ///
    /// # Errors
    ///
    /// Fails when `region` does not have the tree's dimension.
    pub fn region_lookup(&self, region: &Region) -> (r: Result<Vec<Index>, ShapelikeError>)
        requires
            self.inv(),
        ensures
            match r {
                Ok(v) => {
                    &&& region@.len() == self.dim()
                    &&& forall|j: int|
                        0 <= j < v@.len() ==> (#[trigger] v@[j]).generation == 0
                            && self.valid_slot(v@[j].slot as int) && self.is_leaf(
                            v@[j].slot as int,
                        ) && region_contains(self.mbr(v@[j].slot as int), region@)
                    &&& forall|j1: int, j2: int|
                        0 <= j1 < j2 < v@.len() ==> (#[trigger] v@[j1]).slot != (
                        #[trigger] v@[j2]).slot
                    &&& forall|j1: int, j2: int|
                        0 <= j1 < j2 < v@.len() ==> self.dfs_before(
                            (#[trigger] v@[j1]).slot as int,
                            (#[trigger] v@[j2]).slot as int,
                        )
                    &&& forall|l: int|
                        self.valid_slot(l) && self.is_leaf(l) && region_contains(
                            #[trigger] self.mbr(l),
                            region@,
                        ) ==> RTree::<ND>::slot_in(v@, l)
                },
                Err(e) => {
                    &&& region@.len() != self.dim()
                    &&& e == ShapelikeError::UnmatchedDimensions(
                        self.dim() as usize,
                        region.coordinates.len(),
                    )
                },
            },
    {
        let tree_dim = self.nodes.at(self.root).get_region().get_dimension();
        if region.get_dimension() != tree_dim {
            return Err(ShapelikeError::UnmatchedDimensions(tree_dim, region.coordinates.len()));
        }
        let query = Query::Containment(region.clone());
        let mut hits: Vec<Index> = Vec::new();
        self.search(&query, self.root, &mut hits);
        proof {
            self.lemma_lookup_completeness_seed(query, hits@);
        }
        Ok(hits)
    }

    /// The handles of the leaves whose regions contain the given
    /// region: [`RTree::region_lookup`] under the name the query is
    /// usually known by.
    pub fn region_containment_lookup(&self, region: &Region) -> (r: Result<
        Vec<Index>,
        ShapelikeError,
    >)
        requires
            self.inv(),
        ensures
            match r {
                Ok(v) => {
                    &&& region@.len() == self.dim()
                    &&& forall|j: int|
                        0 <= j < v@.len() ==> (#[trigger] v@[j]).generation == 0
                            && self.valid_slot(v@[j].slot as int) && self.is_leaf(
                            v@[j].slot as int,
                        ) && region_contains(self.mbr(v@[j].slot as int), region@)
                    &&& forall|j1: int, j2: int|
                        0 <= j1 < j2 < v@.len() ==> (#[trigger] v@[j1]).slot != (
                        #[trigger] v@[j2]).slot
                    &&& forall|j1: int, j2: int|
                        0 <= j1 < j2 < v@.len() ==> self.dfs_before(
                            (#[trigger] v@[j1]).slot as int,
                            (#[trigger] v@[j2]).slot as int,
                        )
                    &&& forall|l: int|
                        self.valid_slot(l) && self.is_leaf(l) && region_contains(
                            #[trigger] self.mbr(l),
                            region@,
                        ) ==> RTree::<ND>::slot_in(v@, l)
                },
                Err(e) => {
                    &&& region@.len() != self.dim()
                    &&& e == ShapelikeError::UnmatchedDimensions(
                        self.dim() as usize,
                        region.coordinates.len(),
                    )
                },
            },
    {
        self.region_lookup(region)
    }
}

} // verus!
