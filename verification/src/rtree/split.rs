//! Overflow handling: the quadratic seed-and-grow node split.
//!
//! When a node reaches `max_children` children, its child list is
//! partitioned into two groups.  The two seeds are the pair of children
//! whose combined bounding region wastes the most area
//! ([`RTree::find_worst_pair`]); the remaining children are then grown
//! onto the two groups, each going to the side whose region it enlarges
//! least, until one group would become too large, after which the rest
//! drain to the deficient side ([`RTree::quadratic_partition`]).
//! [`RTree::split_node`] applies the partition to the tree and recurses
//! toward the root when the parent overflows in turn.

use vstd::prelude::*;

use crate::geometry::region::{
    lemma_area_monotone, lemma_union_contains_operands, lemma_union_least, lemma_union_wf,
    region_contains, region_union, region_wf, saturated_area, Region,
};
use crate::rtree::arena::Index;
use crate::rtree::node::Node;
use crate::rtree::RTree;

verus! {

/// The number of `true` entries in `s`.
pub open spec fn count_true(s: Seq<bool>) -> int
    decreases s.len(),
{
    if s.len() == 0 {
        0
    } else {
        count_true(s.drop_last()) + (if s.last() {
            1int
        } else {
            0int
        })
    }
}

/// Setting a `false` entry to `true` raises the count by one.
proof fn lemma_count_true_set(s: Seq<bool>, k: int)
    requires
        0 <= k < s.len(),
        !s[k],
    ensures
        count_true(s.update(k, true)) == count_true(s) + 1,
    decreases s.len(),
{
    let t = s.update(k, true);
    if k == s.len() - 1 {
        assert(t.drop_last() =~= s.drop_last());
    } else {
        assert(t.drop_last() =~= s.drop_last().update(k, true));
        lemma_count_true_set(s.drop_last(), k);
    }
}

/// The count of `true` entries never exceeds the length.
proof fn lemma_count_true_bounds(s: Seq<bool>)
    ensures
        0 <= count_true(s) <= s.len(),
    decreases s.len(),
{
    if s.len() > 0 {
        lemma_count_true_bounds(s.drop_last());
    }
}

/// A sequence whose count of `true` entries equals its length is all
/// `true`.
proof fn lemma_count_true_full(s: Seq<bool>)
    requires
        count_true(s) == s.len(),
    ensures
        forall|k: int| 0 <= k < s.len() ==> s[k],
    decreases s.len(),
{
    if s.len() > 0 {
        lemma_count_true_bounds(s.drop_last());
        lemma_count_true_full(s.drop_last());
        assert forall|k: int| 0 <= k < s.len() implies s[k] by {
            if k < s.len() - 1 {
                assert(s.drop_last()[k]);
            }
        }
    }
}

/// One step of a prefix count: taking one more element adds its value.
proof fn lemma_count_true_take_step(s: Seq<bool>, k: int)
    requires
        0 <= k < s.len(),
    ensures
        count_true(s.take(k + 1)) == count_true(s.take(k)) + (if s[k] {
            1int
        } else {
            0int
        }),
{
    assert(s.take(k + 1).drop_last() =~= s.take(k));
    assert(s.take(k + 1).last() == s[k]);
}

impl<ND> RTree<ND> {
    /// The wasted area of the pair `(i, j)` of `leaves`: the area of
    /// their combined bounding region, less the areas of the two
    /// regions themselves (saturated arithmetic throughout).
    pub open spec fn pair_waste(self, leaves: Seq<Index>, i: int, j: int) -> int {
        saturated_area(
            region_union(self.mbr(leaves[i].slot as int), self.mbr(leaves[j].slot as int)),
        ) - saturated_area(self.mbr(leaves[i].slot as int)) - saturated_area(
            self.mbr(leaves[j].slot as int),
        )
    }

    /// Finds the pair of children whose combined bounding region is the
    /// worst: the pair maximising [`RTree::pair_waste`].  Unordered
    /// pairs are enumerated in index-lexicographic order and the first
    /// pair achieving the maximum is kept.
    pub(crate) fn find_worst_pair(&self, leaves: &Vec<Index>) -> (p: (usize, usize))
        requires
            self.regions_ok(leaves@, self.dim()),
            2 <= leaves@.len(),
        ensures
            0 <= p.0 < p.1 < leaves@.len(),
            forall|i: int, j: int|
                #![trigger self.pair_waste(leaves@, i, j)]
                0 <= i < j < leaves@.len() ==> self.pair_waste(leaves@, i, j) <= self.pair_waste(
                    leaves@,
                    p.0 as int,
                    p.1 as int,
                ),
            forall|i: int, j: int|
                #![trigger self.pair_waste(leaves@, i, j)]
                0 <= i < j < leaves@.len() && (i < p.0 || (i == p.0 && j < p.1))
                    ==> self.pair_waste(leaves@, i, j) < self.pair_waste(
                    leaves@,
                    p.0 as int,
                    p.1 as int,
                ),
    {
        let n = leaves.len();
        let mut worst_i: usize = 0;
        let mut worst_j: usize = 1;
        let mut worst_waste: i128 = self.pair_waste_exec(leaves, 0, 1);
        let mut i: usize = 0;
        while i < n
            invariant
                self.regions_ok(leaves@, self.dim()),
                2 <= n == leaves@.len(),
                i <= n,
                0 <= worst_i < worst_j < n,
                worst_i < i || (worst_i == i && worst_j <= i + 1),
                worst_waste == self.pair_waste(leaves@, worst_i as int, worst_j as int),
                forall|a: int, b: int|
                    #![trigger self.pair_waste(leaves@, a, b)]
                    0 <= a < b < n && a < i ==> self.pair_waste(leaves@, a, b) <= worst_waste,
                forall|a: int, b: int|
                    #![trigger self.pair_waste(leaves@, a, b)]
                    0 <= a < b < n && a < i && (a < worst_i || (a == worst_i && b < worst_j))
                        ==> self.pair_waste(leaves@, a, b) < worst_waste,
            decreases n - i,
        {
            let mut j: usize = i + 1;
            while j < n
                invariant
                    self.regions_ok(leaves@, self.dim()),
                    2 <= n == leaves@.len(),
                    i < n,
                    i < j <= n,
                    0 <= worst_i < worst_j < n,
                    worst_i < i || (worst_i == i && worst_j <= j),
                    worst_waste == self.pair_waste(leaves@, worst_i as int, worst_j as int),
                    forall|a: int, b: int|
                        #![trigger self.pair_waste(leaves@, a, b)]
                        0 <= a < b < n && (a < i || (a == i && b < j)) ==> self.pair_waste(
                            leaves@,
                            a,
                            b,
                        ) <= worst_waste,
                    forall|a: int, b: int|
                        #![trigger self.pair_waste(leaves@, a, b)]
                        0 <= a < b < n && (a < i || (a == i && b < j)) && (a < worst_i || (a
                            == worst_i && b < worst_j)) ==> self.pair_waste(leaves@, a, b)
                            < worst_waste,
                decreases n - j,
            {
                let waste = self.pair_waste_exec(leaves, i, j);
                if waste > worst_waste {
                    worst_i = i;
                    worst_j = j;
                    worst_waste = waste;
                }
                j += 1;
            }
            i += 1;
        }
        (worst_i, worst_j)
    }

    /// Computes [`RTree::pair_waste`] for one pair of children.
    fn pair_waste_exec(&self, leaves: &Vec<Index>, i: usize, j: usize) -> (w: i128)
        requires
            self.regions_ok(leaves@, self.dim()),
            i < leaves@.len(),
            j < leaves@.len(),
        ensures
            w == self.pair_waste(leaves@, i as int, j as int),
    {
        let r1 = self.nodes.at(leaves[i]).get_region();
        let r2 = self.nodes.at(leaves[j]).get_region();
        let a1 = r1.get_area();
        let a2 = r2.get_area();
        let combined = match r1.combine_region(r2) {
            Ok(c) => c,
            Err(_) => {
                proof {
                    assert(false);
                }
                Region { coordinates: Vec::new() }
            },
        };
        proof {
            lemma_union_wf(r1@, r2@);
        }
        let ca = combined.get_area();
        ca as i128 - a1 as i128 - a2 as i128
    }

    /// Hands the node at `index` — which must currently have no
    /// children — the given child list, setting each listed node's
    /// parent link to `index`.  Nothing else changes.
    pub(crate) fn set_children_safe(&mut self, index: Index, children: Vec<Index>)
        requires
            old(self).valid_index(index),
            forall|k: int|
                0 <= k < children@.len() ==> old(self).valid_index(#[trigger] children@[k]),
            forall|k: int| 0 <= k < children@.len() ==> (#[trigger] children@[k]).slot
                != index.slot,
            RTree::<ND>::slots_distinct(children@),
            old(self).children_of(index.slot as int).len() == 0,
        ensures
            final(self).node_count() == old(self).node_count(),
            final(self).height_seq() == old(self).height_seq(),
            final(self).root_handle() == old(self).root_handle(),
            final(self).spec_min_children() == old(self).spec_min_children(),
            final(self).spec_max_children() == old(self).spec_max_children(),
            final(self).children_of(index.slot as int) == children@,
            final(self).node_at(index.slot as int).minimum_bounding_region == old(self).node_at(
                index.slot as int,
            ).minimum_bounding_region,
            final(self).node_at(index.slot as int).data == old(self).node_at(
                index.slot as int,
            ).data,
            final(self).node_at(index.slot as int).parent == old(self).node_at(
                index.slot as int,
            ).parent,
            forall|k: int|
                0 <= k < children@.len() ==> {
                    let c = (#[trigger] children@[k]).slot as int;
                    &&& final(self).node_at(c).parent == Some(index)
                    &&& final(self).node_at(c).children == old(self).node_at(c).children
                    &&& final(self).node_at(c).minimum_bounding_region == old(self).node_at(
                        c,
                    ).minimum_bounding_region
                    &&& final(self).node_at(c).data == old(self).node_at(c).data
                },
            forall|n: int|
                old(self).valid_slot(n) && n != index.slot as int && !RTree::<ND>::slot_in(
                    children@,
                    n,
                ) ==> final(self).node_at(n) == old(self).node_at(n),
    {
        let count = children.len();
        let mut k: usize = 0;
        while k < count
            invariant
                self.valid_index(index),
                count == children@.len(),
                k <= count,
                forall|m: int| 0 <= m < count ==> self.valid_index(#[trigger] children@[m]),
                forall|m: int| 0 <= m < count ==> (#[trigger] children@[m]).slot != index.slot,
                RTree::<ND>::slots_distinct(children@),
                self.node_count() == old(self).node_count(),
                self.height_seq() == old(self).height_seq(),
                self.root_handle() == old(self).root_handle(),
                self.spec_min_children() == old(self).spec_min_children(),
                self.spec_max_children() == old(self).spec_max_children(),
                self.children_of(index.slot as int) == children@.take(k as int),
                self.node_at(index.slot as int).minimum_bounding_region == old(self).node_at(
                    index.slot as int,
                ).minimum_bounding_region,
                self.node_at(index.slot as int).data == old(self).node_at(index.slot as int).data,
                self.node_at(index.slot as int).parent == old(self).node_at(
                    index.slot as int,
                ).parent,
                forall|m: int|
                    0 <= m < k ==> {
                        let c = (#[trigger] children@[m]).slot as int;
                        &&& self.node_at(c).parent == Some(index)
                        &&& self.node_at(c).children == old(self).node_at(c).children
                        &&& self.node_at(c).minimum_bounding_region == old(self).node_at(
                            c,
                        ).minimum_bounding_region
                        &&& self.node_at(c).data == old(self).node_at(c).data
                    },
                forall|m: int|
                    k <= m < count ==> self.node_at((#[trigger] children@[m]).slot as int) == old(self).node_at(children@[m].slot as int),
                forall|n: int|
                    old(self).valid_slot(n) && n != index.slot as int && !RTree::<ND>::slot_in(
                        children@,
                        n,
                    ) ==> self.node_at(n) == old(self).node_at(n),
            decreases count - k,
        {
            let child = children[k];
            self.nodes.at_mut(child).set_parent(index);
            self.nodes.at_mut(index).add_child_unchecked(child);
            proof {
                assert(self.children_of(index.slot as int) =~= children@.take(k + 1));
            }
            k += 1;
        }
        proof {
            assert(children@.take(count as int) =~= children@);
        }
    }

    /// `m` is the least region covering the members of `children`
    /// selected by `pick`: it contains each selected member's region,
    /// and any region of the same dimension covering all selected
    /// members covers `m`.
    pub open spec fn is_group_cover(
        self,
        children: Seq<Index>,
        pick: Seq<bool>,
        m: Seq<(int, int)>,
    ) -> bool {
        &&& forall|k: int|
            0 <= k < children.len() && pick[k] ==> region_contains(
                m,
                self.mbr((#[trigger] children[k]).slot as int),
            )
        &&& forall|b: Seq<(int, int)>|
            b.len() == m.len() && (forall|k: int|
                0 <= k < children.len() && pick[k] ==> region_contains(
                    b,
                    self.mbr((#[trigger] children[k]).slot as int),
                )) ==> #[trigger] region_contains(b, m)
    }

    /// A seed region is the least cover of its own singleton selection.
    proof fn lemma_cover_seed(self, children: Seq<Index>, seed: int, d: int)
        requires
            self.regions_ok(children, d),
            0 <= seed < children.len(),
        ensures
            self.is_group_cover(
                children,
                Seq::new(children.len(), |k: int| k == seed),
                self.mbr(children[seed].slot as int),
            ),
    {
        let pick = Seq::new(children.len(), |k: int| k == seed);
        let m = self.mbr(children[seed].slot as int);
        assert forall|k: int|
            0 <= k < children.len() && pick[k] implies region_contains(
            m,
            self.mbr((#[trigger] children[k]).slot as int),
        ) by {
            assert(k == seed);
            assert(region_contains(m, m));
        }
    }

    /// Extending a group by one member turns its cover into the union
    /// with that member's region.
    proof fn lemma_cover_extend(
        self,
        children: Seq<Index>,
        pick: Seq<bool>,
        m: Seq<(int, int)>,
        j: int,
        d: int,
    )
        requires
            self.regions_ok(children, d),
            pick.len() == children.len(),
            m.len() == d,
            self.is_group_cover(children, pick, m),
            0 <= j < children.len(),
        ensures
            self.is_group_cover(
                children,
                pick.update(j, true),
                region_union(m, self.mbr(children[j].slot as int)),
            ),
    {
        let r = self.mbr(children[j].slot as int);
        let u = region_union(m, r);
        lemma_union_contains_operands(m, r);
        let pick2 = pick.update(j, true);
        assert forall|k: int|
            0 <= k < children.len() && pick2[k] implies region_contains(
            u,
            self.mbr((#[trigger] children[k]).slot as int),
        ) by {
            if k == j {
                assert(region_contains(u, r));
            } else {
                assert(pick[k]);
                crate::geometry::region::lemma_contains_trans(
                    u,
                    m,
                    self.mbr(children[k].slot as int),
                );
            }
        }
        assert forall|b: Seq<(int, int)>|
            b.len() == u.len() && (forall|k: int|
                0 <= k < children.len() && pick2[k] ==> region_contains(
                    b,
                    self.mbr((#[trigger] children[k]).slot as int),
                )) implies #[trigger] region_contains(b, u) by {
            assert forall|k: int|
                0 <= k < children.len() && pick[k] implies region_contains(
                b,
                self.mbr((#[trigger] children[k]).slot as int),
            ) by {
                assert(pick2[k]);
            }
            assert(region_contains(b, m));
            assert(region_contains(b, r)) by {
                assert(pick2[j]);
            }
            lemma_union_least(m, r, b);
        }
    }


    /// `sub` is `sup` thinned out: `at` lists, in strictly increasing
    /// order, the positions of `sup` that `sub` keeps — so `sub`
    /// preserves `sup`'s relative order.
    pub open spec fn subsequence_at(sub: Seq<Index>, sup: Seq<Index>, at: Seq<int>) -> bool {
        &&& at.len() == sub.len()
        &&& forall|m: int|
            0 <= m < at.len() ==> 0 <= #[trigger] at[m] < sup.len() && sub[m] == sup[at[m]]
        &&& forall|m1: int, m2: int|
            #![trigger at[m1], at[m2]]
            0 <= m1 < m2 < at.len() ==> at[m1] < at[m2]
    }

    /// `m` is the least region of the tree's dimension covering the
    /// regions of the nodes listed in `g`: any region of that dimension
    /// covering them all covers `m`.
    pub open spec fn group_cover_for(self, g: Seq<Index>, m: Seq<(int, int)>) -> bool {
        forall|b: Seq<(int, int)>|
            b.len() == self.dim() && (forall|mm: int|
                0 <= mm < g.len() ==> region_contains(
                    b,
                    self.mbr((#[trigger] g[mm]).slot as int),
                )) ==> #[trigger] region_contains(b, m)
    }

    /// Transfers the least-cover property from a selection over the
    /// original child list to the composed group vector.
    proof fn lemma_cover_to_group(
        self,
        children: Seq<Index>,
        pick: Seq<bool>,
        g: Seq<Index>,
        m: Seq<(int, int)>,
        d: int,
    )
        requires
            pick.len() == children.len(),
            m.len() == d,
            self.is_group_cover(children, pick, m),
            forall|idx: int|
                0 <= idx < children.len() && pick[idx] ==> g.contains(#[trigger] children[idx]),
            d == self.dim(),
        ensures
            self.group_cover_for(g, m),
    {
        assert forall|b: Seq<(int, int)>|
            b.len() == d && (forall|mm: int|
                0 <= mm < g.len() ==> region_contains(
                    b,
                    self.mbr((#[trigger] g[mm]).slot as int),
                )) implies #[trigger] region_contains(b, m) by {
            assert forall|kk: int|
                0 <= kk < children.len() && pick[kk] implies region_contains(
                b,
                self.mbr((#[trigger] children[kk]).slot as int),
            ) by {
                assert(g.contains(children[kk]));
                let mm = choose|mm: int| 0 <= mm < g.len() && g[mm] == children[kk];
                assert(region_contains(b, self.mbr(g[mm].slot as int)));
            }
            assert(region_contains(b, m));
        }
    }

    /// Splits an over-full child list into two groups using the
    /// quadratic seed-and-grow strategy, returning the two groups (each
    /// preserving the original child order) and their bounding regions.
    /// The two seeds — the first pair wasting the most area — end up
    /// one in each group; both groups get between `min_children` and
    /// `max_children - min_children` members; and each returned region
    /// is the least region covering its group.
    #[verifier::rlimit(60)]
    #[verifier::spinoff_prover]
    pub(crate) fn quadratic_partition(&self, children: Vec<Index>) -> (r: (
        Vec<Index>,
        Vec<Index>,
        Region,
        Region,
    ))
        requires
            self.wf_params(),
            self.regions_ok(children@, self.dim()),
            children@.len() == self.spec_max_children(),
            RTree::<ND>::slots_distinct(children@),
        ensures
            r.0@.len() + r.1@.len() == children@.len(),
            self.spec_min_children() <= r.0@.len() <= self.spec_max_children()
                - self.spec_min_children(),
            self.spec_min_children() <= r.1@.len() <= self.spec_max_children()
                - self.spec_min_children(),
            forall|m: int| 0 <= m < r.0@.len() ==> children@.contains(#[trigger] r.0@[m]),
            forall|m: int| 0 <= m < r.1@.len() ==> children@.contains(#[trigger] r.1@[m]),
            forall|m: int|
                0 <= m < children@.len() ==> r.0@.contains(#[trigger] children@[m])
                    || r.1@.contains(children@[m]),
            RTree::<ND>::slots_distinct(r.0@),
            RTree::<ND>::slots_distinct(r.1@),
            forall|a: int, b: int|
                #![trigger r.0@[a], r.1@[b]]
                0 <= a < r.0@.len() && 0 <= b < r.1@.len() ==> r.0@[a].slot != r.1@[b].slot,
            exists|s: Seq<int>| #[trigger] RTree::<ND>::subsequence_at(r.0@, children@, s),
            exists|s: Seq<int>| #[trigger] RTree::<ND>::subsequence_at(r.1@, children@, s),
            exists|i: int, j: int|
                #![trigger children@[i], children@[j]]
                0 <= i < j < children@.len() && (forall|a: int, b: int|
                    #![trigger self.pair_waste(children@, a, b)]
                    0 <= a < b < children@.len() ==> self.pair_waste(children@, a, b)
                        <= self.pair_waste(children@, i, j)) && (forall|a: int, b: int|
                    #![trigger self.pair_waste(children@, a, b)]
                    0 <= a < b < children@.len() && (a < i || (a == i && b < j))
                        ==> self.pair_waste(children@, a, b) < self.pair_waste(children@, i, j))
                    && r.0@.contains(children@[i]) && r.1@.contains(children@[j]),
            region_wf(r.2@),
            r.2@.len() == self.dim(),
            region_wf(r.3@),
            r.3@.len() == self.dim(),
            forall|m: int|
                0 <= m < r.0@.len() ==> region_contains(
                    r.2@,
                    self.mbr((#[trigger] r.0@[m]).slot as int),
                ),
            forall|m: int|
                0 <= m < r.1@.len() ==> region_contains(
                    r.3@,
                    self.mbr((#[trigger] r.1@[m]).slot as int),
                ),
            self.group_cover_for(r.0@, r.2@),
            self.group_cover_for(r.1@, r.3@),
    {
        let n = children.len();
        let ghost d = self.dim();
        let (ix1, ix2) = self.find_worst_pair(&children);

        // Assignment state: `assigned[k]` once child `k` has a group,
        // `in_g1[k]` when that group is the first one.
        let mut assigned: Vec<bool> = Vec::new();
        let mut in_g1: Vec<bool> = Vec::new();
        let mut k: usize = 0;
        while k < n
            invariant
                k <= n,
                assigned@.len() == k,
                in_g1@.len() == k,
                forall|m: int| 0 <= m < k ==> !assigned@[m] && !in_g1@[m],
            decreases n - k,
        {
            assigned.push(false);
            in_g1.push(false);
            k += 1;
        }
        proof {
            lemma_count_true_zero(assigned@);
            lemma_count_true_zero(in_g1@);
        }
        let ghost a0 = assigned@;
        let ghost empty_in_g1 = in_g1@;
        assigned[ix1] = true;
        let ghost a1 = assigned@;
        in_g1[ix1] = true;
        assigned[ix2] = true;
        proof {
            lemma_count_true_set(a0, ix1 as int);
            lemma_count_true_set(a1, ix2 as int);
            lemma_count_true_set(empty_in_g1, ix1 as int);
        }
        let mut g1_len: usize = 1;

        // The indices still waiting for a group, in ascending order.
        let mut unpicked: Vec<usize> = Vec::new();
        let mut k2: usize = 0;
        while k2 < n
            invariant
                k2 <= n,
                n == assigned@.len(),
                (ix1 as int) < n,
                (ix2 as int) < n,
                ix1 != ix2,
                forall|m: int|
                    0 <= m < n ==> (assigned@[m] <==> (m == ix1 as int || m == ix2 as int)),
                forall|j1: int, j2: int|
                    0 <= j1 < j2 < unpicked@.len() ==> #[trigger] unpicked@[j1]
                        < #[trigger] unpicked@[j2],
                forall|j: int| 0 <= j < unpicked@.len() ==> (#[trigger] unpicked@[j]) < k2,
                forall|j: int| 0 <= j < unpicked@.len() ==> !assigned@[unpicked@[j] as int],
                unpicked@.len() + (if (ix1 as int) < k2 {
                    1int
                } else {
                    0int
                }) + (if (ix2 as int) < k2 {
                    1int
                } else {
                    0int
                }) == k2,
            decreases n - k2,
        {
            if k2 != ix1 && k2 != ix2 {
                unpicked.push(k2);
            }
            k2 += 1;
        }

        let mut group1_mbr = self.nodes.at(children[ix1]).get_region().clone();
        let mut group2_mbr = self.nodes.at(children[ix2]).get_region().clone();
        proof {
            self.lemma_cover_seed(children@, ix1 as int, d);
            self.lemma_cover_seed(children@, ix2 as int, d);
            assert(in_g1@ =~= Seq::new(children@.len(), |m: int| m == ix1 as int));
            assert(g2_pick(assigned@, in_g1@) =~= Seq::new(
                children@.len(),
                |m: int| m == ix2 as int,
            ));
        }

        let cap = self.max_children - self.min_children;
        while unpicked.len() > 0 && g1_len < cap && n - g1_len - unpicked.len() < cap
            invariant
                self.wf_params(),
                self.regions_ok(children@, d),
                d == self.dim(),
                n == children@.len() == self.spec_max_children(),
                cap == self.spec_max_children() - self.spec_min_children(),
                assigned@.len() == n,
                in_g1@.len() == n,
                (ix1 as int) < n,
                (ix2 as int) < n,
                in_g1@[ix1 as int],
                assigned@[ix1 as int],
                assigned@[ix2 as int],
                !in_g1@[ix2 as int],
                forall|m: int| 0 <= m < n && in_g1@[m] ==> assigned@[m],
                g1_len == count_true(in_g1@),
                unpicked@.len() + count_true(assigned@) == n,
                1 <= g1_len <= cap,
                1 <= count_true(assigned@) - g1_len <= cap,
                forall|j1: int, j2: int|
                    0 <= j1 < j2 < unpicked@.len() ==> #[trigger] unpicked@[j1]
                        < #[trigger] unpicked@[j2],
                forall|j: int| 0 <= j < unpicked@.len() ==> (#[trigger] unpicked@[j]) < n,
                forall|j: int| 0 <= j < unpicked@.len() ==> !assigned@[unpicked@[j] as int],
                region_wf(group1_mbr@),
                group1_mbr@.len() == d,
                region_wf(group2_mbr@),
                group2_mbr@.len() == d,
                self.is_group_cover(children@, in_g1@, group1_mbr@),
                self.is_group_cover(children@, g2_pick(assigned@, in_g1@), group2_mbr@),
            decreases unpicked@.len(),
        {
            // Pick the unassigned child whose preferred side it
            // enlarges least; exact ties go to the side with the
            // smaller region.
            let mut best_pos: usize = 0;
            let mut best_side1: bool = true;
            let mut best_d: u64 = 0;
            let mut have: bool = false;
            let mut j: usize = 0;
            while j < unpicked.len()
                invariant
                    self.regions_ok(children@, d),
                    d == self.dim(),
                    n == children@.len(),
                    region_wf(group1_mbr@),
                    group1_mbr@.len() == d,
                    region_wf(group2_mbr@),
                    group2_mbr@.len() == d,
                    j <= unpicked@.len(),
                    forall|j2: int| 0 <= j2 < unpicked@.len() ==> (#[trigger] unpicked@[j2]) < n,
                    have ==> best_pos < unpicked@.len(),
                    j > 0 ==> have,
                decreases unpicked@.len() - j,
            {
                let kc = unpicked[j];
                let rk = self.nodes.at(children[kc]).get_region();
                let d1 = self.enlargement_exec(&group1_mbr, rk);
                let d2 = self.enlargement_exec(&group2_mbr, rk);
                if d1 < d2 && (!have || d1 < best_d) {
                    best_pos = j;
                    best_side1 = true;
                    best_d = d1;
                    have = true;
                } else if d2 < d1 && (!have || d2 < best_d) {
                    best_pos = j;
                    best_side1 = false;
                    best_d = d2;
                    have = true;
                } else if d1 == d2 && (!have || d1 < best_d) {
                    let a1 = group1_mbr.get_area();
                    let a2 = group2_mbr.get_area();
                    best_pos = j;
                    best_side1 = a1 <= a2;
                    best_d = d1;
                    have = true;
                }
                j += 1;
            }

            let winner = unpicked.remove(best_pos);
            proof {
                let up = unpicked@;
                assert forall|j1: int, j2: int|
                    0 <= j1 < j2 < up.len() implies #[trigger] up[j1] < #[trigger] up[j2] by {}
            }
            let ghost prev_assigned = assigned@;
            let ghost prev_in_g1 = in_g1@;
            assigned[winner] = true;
            proof {
                lemma_count_true_set(prev_assigned, winner as int);
            }
            if best_side1 {
                in_g1[winner] = true;
                g1_len += 1;
                proof {
                    lemma_count_true_set(prev_in_g1, winner as int);
                    self.lemma_cover_extend(children@, prev_in_g1, group1_mbr@, winner as int, d);
                }
                let target = self.nodes.at(children[winner]).get_region().clone();
                match group1_mbr.combine_region_in_place(&target) {
                    Ok(()) => (),
                    Err(_) => {
                        proof {
                            assert(false);
                        }
                    },
                }
                proof {
                    lemma_union_wf(
                        region_union(
                            group1_mbr@,
                            self.mbr(children@[winner as int].slot as int),
                        ),
                        group1_mbr@,
                    );
                    assert(g2_pick(assigned@, in_g1@) =~= g2_pick(prev_assigned, prev_in_g1));
                }
            } else {
                proof {
                    self.lemma_cover_extend(
                        children@,
                        g2_pick(prev_assigned, prev_in_g1),
                        group2_mbr@,
                        winner as int,
                        d,
                    );
                    assert(g2_pick(assigned@, in_g1@) =~= g2_pick(prev_assigned, prev_in_g1).update(
                        winner as int,
                        true,
                    ));
                    assert(in_g1@ =~= prev_in_g1);
                }
                let target = self.nodes.at(children[winner]).get_region().clone();
                match group2_mbr.combine_region_in_place(&target) {
                    Ok(()) => (),
                    Err(_) => {
                        proof {
                            assert(false);
                        }
                    },
                }
            }
            proof {
                lemma_union_wf(group1_mbr@, group1_mbr@);
            }
        }

        // Drain: whatever is left goes to the deficient side.
        let drain_to_g1 = g1_len < self.min_children;
        proof {
            if unpicked@.len() > 0 {
                assert(g1_len as int == cap as int || count_true(assigned@) - g1_len as int
                    == cap as int);
                if drain_to_g1 {
                    assert(count_true(assigned@) - g1_len as int == cap as int);
                    assert(g1_len as int + unpicked@.len() == self.spec_min_children());
                }
            } else {
                assert(count_true(assigned@) == n);
                assert(g1_len as int >= self.spec_min_children());
                assert(!drain_to_g1);
            }
        }
        let mut j3: usize = 0;
        while j3 < unpicked.len()
            invariant
                self.wf_params(),
                self.regions_ok(children@, d),
                d == self.dim(),
                n == children@.len() == self.spec_max_children(),
                cap == self.spec_max_children() - self.spec_min_children(),
                assigned@.len() == n,
                in_g1@.len() == n,
                (ix1 as int) < n,
                (ix2 as int) < n,
                in_g1@[ix1 as int],
                assigned@[ix1 as int],
                assigned@[ix2 as int],
                !in_g1@[ix2 as int],
                forall|m: int| 0 <= m < n && in_g1@[m] ==> assigned@[m],
                g1_len == count_true(in_g1@),
                unpicked@.len() + count_true(assigned@) == n + j3,
                j3 <= unpicked@.len(),
                1 <= g1_len,
                drain_to_g1 ==> g1_len as int + (unpicked@.len() - j3)
                    == self.spec_min_children(),
                !drain_to_g1 ==> self.spec_min_children() <= g1_len <= cap,
                1 <= count_true(assigned@) - g1_len,
                drain_to_g1 ==> count_true(assigned@) - g1_len == cap,
                forall|j1: int, j2: int|
                    j3 <= j1 < j2 < unpicked@.len() ==> #[trigger] unpicked@[j1]
                        < #[trigger] unpicked@[j2],
                forall|jx: int| j3 <= jx < unpicked@.len() ==> (#[trigger] unpicked@[jx]) < n,
                forall|jx: int|
                    j3 <= jx < unpicked@.len() ==> !assigned@[unpicked@[jx] as int],
                region_wf(group1_mbr@),
                group1_mbr@.len() == d,
                region_wf(group2_mbr@),
                group2_mbr@.len() == d,
                self.is_group_cover(children@, in_g1@, group1_mbr@),
                self.is_group_cover(children@, g2_pick(assigned@, in_g1@), group2_mbr@),
            decreases unpicked@.len() - j3,
        {
            let kc = unpicked[j3];
            let ghost prev_assigned = assigned@;
            let ghost prev_in_g1 = in_g1@;
            assigned[kc] = true;
            proof {
                lemma_count_true_set(prev_assigned, kc as int);
            }
            if drain_to_g1 {
                in_g1[kc] = true;
                g1_len += 1;
                proof {
                    lemma_count_true_set(prev_in_g1, kc as int);
                    self.lemma_cover_extend(children@, prev_in_g1, group1_mbr@, kc as int, d);
                    assert(g2_pick(assigned@, in_g1@) =~= g2_pick(prev_assigned, prev_in_g1));
                }
                let target = self.nodes.at(children[kc]).get_region().clone();
                match group1_mbr.combine_region_in_place(&target) {
                    Ok(()) => (),
                    Err(_) => {
                        proof {
                            assert(false);
                        }
                    },
                }
            } else {
                proof {
                    self.lemma_cover_extend(
                        children@,
                        g2_pick(prev_assigned, prev_in_g1),
                        group2_mbr@,
                        kc as int,
                        d,
                    );
                    assert(g2_pick(assigned@, in_g1@) =~= g2_pick(prev_assigned, prev_in_g1).update(
                        kc as int,
                        true,
                    ));
                    assert(in_g1@ =~= prev_in_g1);
                }
                let target = self.nodes.at(children[kc]).get_region().clone();
                match group2_mbr.combine_region_in_place(&target) {
                    Ok(()) => (),
                    Err(_) => {
                        proof {
                            assert(false);
                        }
                    },
                }
            }
            proof {
                lemma_union_wf(group1_mbr@, group1_mbr@);
            }
            j3 += 1;
        }
        proof {
            assert(count_true(assigned@) == n);
            lemma_count_true_full(assigned@);
            assert(self.spec_min_children() <= g1_len as int <= cap as int);
            lemma_count_true_bounds(in_g1@);
        }

        // Compose the two groups, keeping the original child order.
        let mut group1: Vec<Index> = Vec::new();
        let mut group2: Vec<Index> = Vec::new();
        let ghost mut src1: Seq<int> = Seq::empty();
        let ghost mut src2: Seq<int> = Seq::empty();
        let mut k4: usize = 0;
        while k4 < n
            invariant
                n == children@.len(),
                in_g1@.len() == n,
                RTree::<ND>::slots_distinct(children@),
                k4 <= n,
                group1@.len() == count_true(in_g1@.take(k4 as int)),
                group1@.len() + group2@.len() == k4,
                src1.len() == group1@.len(),
                src2.len() == group2@.len(),
                forall|m: int|
                    #![trigger src1[m]]
                    0 <= m < src1.len() ==> 0 <= src1[m] < k4 && group1@[m]
                        == children@[src1[m]] && in_g1@[src1[m]],
                forall|m: int|
                    #![trigger src2[m]]
                    0 <= m < src2.len() ==> 0 <= src2[m] < k4 && group2@[m]
                        == children@[src2[m]] && !in_g1@[src2[m]],
                forall|m1: int, m2: int|
                    #![trigger src1[m1], src1[m2]]
                    0 <= m1 < m2 < src1.len() ==> src1[m1] < src1[m2],
                forall|m1: int, m2: int|
                    #![trigger src2[m1], src2[m2]]
                    0 <= m1 < m2 < src2.len() ==> src2[m1] < src2[m2],
                forall|idx: int|
                    0 <= idx < k4 && in_g1@[idx] ==> group1@.contains(#[trigger] children@[idx]),
                forall|idx: int|
                    0 <= idx < k4 && !in_g1@[idx] ==> group2@.contains(#[trigger] children@[idx]),
            decreases n - k4,
        {
            proof {
                lemma_count_true_take_step(in_g1@, k4 as int);
            }
            let ghost old_g1 = group1@;
            let ghost old_g2 = group2@;
            if in_g1[k4] {
                group1.push(children[k4]);
                proof {
                    src1 = src1.push(k4 as int);
                }
            } else {
                group2.push(children[k4]);
                proof {
                    src2 = src2.push(k4 as int);
                }
            }
            proof {
                assert forall|idx: int|
                    0 <= idx < k4 + 1 && in_g1@[idx] implies group1@.contains(
                    #[trigger] children@[idx],
                ) by {
                    if idx < k4 {
                        let m = choose|m: int| 0 <= m < old_g1.len() && old_g1[m] == children@[idx];
                        assert(group1@[m] == children@[idx]);
                    } else {
                        assert(group1@.last() == children@[idx]);
                    }
                }
                assert forall|idx: int|
                    0 <= idx < k4 + 1 && !in_g1@[idx] implies group2@.contains(
                    #[trigger] children@[idx],
                ) by {
                    if idx < k4 {
                        let m = choose|m: int| 0 <= m < old_g2.len() && old_g2[m] == children@[idx];
                        assert(group2@[m] == children@[idx]);
                    } else {
                        assert(group2@.last() == children@[idx]);
                    }
                }
            }
            k4 += 1;
        }
        proof {
            assert(in_g1@.take(n as int) =~= in_g1@);
            let g1s = group1@;
            let g2s = group2@;
            assert forall|m: int| 0 <= m < g1s.len() implies children@.contains(
                #[trigger] g1s[m],
            ) by {
                assert(children@[src1[m]] == g1s[m]);
            }
            assert forall|m: int| 0 <= m < g2s.len() implies children@.contains(
                #[trigger] g2s[m],
            ) by {
                assert(children@[src2[m]] == g2s[m]);
            }
            assert forall|a: int, b: int|
                #![trigger g1s[a], g2s[b]]
                0 <= a < g1s.len() && 0 <= b < g2s.len() implies g1s[a].slot != g2s[b].slot by {
                assert(in_g1@[src1[a]] && !in_g1@[src2[b]]);
                assert(src1[a] != src2[b]);
            }
            assert forall|a: int, b: int|
                #![trigger g1s[a].slot, g1s[b].slot]
                0 <= a < g1s.len() && 0 <= b < g1s.len() && a != b implies g1s[a].slot != g1s[
                b
            ].slot by {
                assert(src1[a] != src1[b]);
            }
            assert forall|a: int, b: int|
                #![trigger g2s[a].slot, g2s[b].slot]
                0 <= a < g2s.len() && 0 <= b < g2s.len() && a != b implies g2s[a].slot != g2s[
                b
            ].slot by {
                assert(src2[a] != src2[b]);
            }
            assert forall|m: int| 0 <= m < g1s.len() implies region_contains(
                group1_mbr@,
                self.mbr((#[trigger] g1s[m]).slot as int),
            ) by {
                assert(region_contains(group1_mbr@, self.mbr(children@[src1[m]].slot as int)));
            }
            assert forall|m: int| 0 <= m < g2s.len() implies region_contains(
                group2_mbr@,
                self.mbr((#[trigger] g2s[m]).slot as int),
            ) by {
                assert(g2_pick(assigned@, in_g1@)[src2[m]]);
                assert(region_contains(group2_mbr@, self.mbr(children@[src2[m]].slot as int)));
            }
            assert forall|idx: int|
                0 <= idx < children@.len() && in_g1@[idx] implies group1@.contains(
                #[trigger] children@[idx],
            ) by {}
            self.lemma_cover_to_group(children@, in_g1@, group1@, group1_mbr@, self.dim());
            assert forall|idx: int|
                0 <= idx < children@.len() && g2_pick(assigned@, in_g1@)[idx]
                implies group2@.contains(#[trigger] children@[idx]) by {
                assert(!in_g1@[idx]);
            }
            self.lemma_cover_to_group(
                children@,
                g2_pick(assigned@, in_g1@),
                group2@,
                group2_mbr@,
                self.dim(),
            );
        }

        proof {
            assert(RTree::<ND>::subsequence_at(group1@, children@, src1));
            assert(RTree::<ND>::subsequence_at(group2@, children@, src2));
            assert(group1@.contains(children@[ix1 as int]));
            assert(group2@.contains(children@[ix2 as int]));
        }
        (group1, group2, group1_mbr, group2_mbr)
    }

    /// Computes how much `base` would have to grow to cover `other`:
    /// the difference of the saturated areas of their union and of
    /// `base`.
    pub(crate) fn enlargement_exec(&self, base: &Region, other: &Region) -> (e: u64)
        requires
            region_wf(base@),
            region_wf(other@),
            base@.len() == other@.len(),
        ensures
            e as int == saturated_area(region_union(base@, other@)) - saturated_area(base@),
    {
        let combined = match base.combine_region(other) {
            Ok(c) => c,
            Err(_) => {
                proof {
                    assert(false);
                }
                Region { coordinates: Vec::new() }
            },
        };
        proof {
            lemma_union_wf(base@, other@);
            lemma_union_contains_operands(base@, other@);
            lemma_area_monotone(base@, combined@);
        }
        let big = combined.get_area();
        let small = base.get_area();
        big - small
    }
}

impl<ND> RTree<ND> {
    /// What the partition guarantees about the two groups, stated over
    /// the tree as it stood before the split began: the groups form a
    /// partition of the split node's children, both are within the
    /// fanout bounds, and each group region is well formed, covers its
    /// members, and fits inside the split node's region.
    pub open spec fn partition_facts(
        self,
        xs: int,
        ch: Seq<Index>,
        g1: Seq<Index>,
        g2: Seq<Index>,
        m1: Seq<(int, int)>,
        m2: Seq<(int, int)>,
    ) -> bool {
        &&& ch == self.children_of(xs)
        &&& g1.len() + g2.len() == ch.len()
        &&& self.spec_min_children() <= g1.len() <= self.spec_max_children()
            - self.spec_min_children()
        &&& self.spec_min_children() <= g2.len() <= self.spec_max_children()
            - self.spec_min_children()
        &&& forall|k: int| 0 <= k < g1.len() ==> ch.contains(#[trigger] g1[k])
        &&& forall|k: int| 0 <= k < g2.len() ==> ch.contains(#[trigger] g2[k])
        &&& forall|m: int|
            0 <= m < ch.len() ==> g1.contains(#[trigger] ch[m]) || g2.contains(ch[m])
        &&& RTree::<ND>::slots_distinct(g1)
        &&& RTree::<ND>::slots_distinct(g2)
        &&& forall|a: int, b: int|
            #![trigger g1[a], g2[b]]
            0 <= a < g1.len() && 0 <= b < g2.len() ==> g1[a].slot != g2[b].slot
        &&& region_wf(m1)
        &&& m1.len() == self.dim()
        &&& region_wf(m2)
        &&& m2.len() == self.dim()
        &&& forall|m: int|
            0 <= m < g1.len() ==> region_contains(m1, self.mbr((#[trigger] g1[m]).slot as int))
        &&& forall|m: int|
            0 <= m < g2.len() ==> region_contains(m2, self.mbr((#[trigger] g2[m]).slot as int))
        &&& region_contains(self.mbr(xs), m1)
        &&& region_contains(self.mbr(xs), m2)
    }

    /// Facts about the members of the two groups that follow from the
    /// invariant at the split node: each is a live non-root child of the
    /// split node, one level below it, and no slot sits in both groups.
    proof fn lemma_member_facts(
        t0: Self,
        index: Index,
        ch: Seq<Index>,
        g1: Seq<Index>,
        g2: Seq<Index>,
        m1: Seq<(int, int)>,
        m2: Seq<(int, int)>,
    )
        requires
            t0.valid_index(index),
            t0.inv_except_overfull(index.slot as int),
            t0.partition_facts(index.slot as int, ch, g1, g2, m1, m2),
        ensures
            forall|k: int|
                #![trigger g1[k]]
                0 <= k < g1.len() ==> t0.parent_of(g1[k].slot as int) == Some(index)
                    && t0.valid_slot(g1[k].slot as int) && g1[k].slot as int != t0.root_slot()
                    && g1[k].slot as int != index.slot as int && g1[k].generation == 0
                    && t0.height_of(g1[k].slot as int) == t0.height_of(index.slot as int) - 1,
            forall|k: int|
                #![trigger g2[k]]
                0 <= k < g2.len() ==> t0.parent_of(g2[k].slot as int) == Some(index)
                    && t0.valid_slot(g2[k].slot as int) && g2[k].slot as int != t0.root_slot()
                    && g2[k].slot as int != index.slot as int && g2[k].generation == 0
                    && t0.height_of(g2[k].slot as int) == t0.height_of(index.slot as int) - 1,
            !RTree::<ND>::slot_in(g1, index.slot as int),
            !RTree::<ND>::slot_in(g2, index.slot as int),
            forall|n: int|
                RTree::<ND>::slot_in(ch, n) ==> RTree::<ND>::slot_in(g1, n) || RTree::<ND>::slot_in(
                    g2,
                    n,
                ),
            forall|n: int| RTree::<ND>::slot_in(g1, n) ==> !RTree::<ND>::slot_in(g2, n),
            1 <= t0.height_of(index.slot as int),
    {
        let xs = index.slot as int;
        assert(0 <= t0.height_of(xs));
        assert(!t0.is_leaf(xs));
        assert forall|k: int|
            0 <= k < ch.len() implies t0.parent_of((#[trigger] ch[k]).slot as int) == Some(index)
            && t0.valid_slot(ch[k].slot as int) && ch[k].slot as int != t0.root_slot() && ch[
            k
        ].slot as int != xs && ch[k].generation == 0 && t0.height_of(ch[k].slot as int)
            == t0.height_of(xs) - 1 by {
            t0.lemma_child_facts(xs, k);
            assert(index == (Index { slot: xs as usize, generation: 0 }));
        }
        assert forall|k: int|
            #![trigger g1[k]]
            0 <= k < g1.len() implies t0.parent_of(g1[k].slot as int) == Some(index)
            && t0.valid_slot(g1[k].slot as int) && g1[k].slot as int != t0.root_slot() && g1[
            k
        ].slot as int != xs && g1[k].generation == 0 && t0.height_of(g1[k].slot as int)
            == t0.height_of(xs) - 1 by {
            assert(ch.contains(g1[k]));
            let j = choose|j: int| 0 <= j < ch.len() && ch[j] == g1[k];
        }
        assert forall|k: int|
            #![trigger g2[k]]
            0 <= k < g2.len() implies t0.parent_of(g2[k].slot as int) == Some(index)
            && t0.valid_slot(g2[k].slot as int) && g2[k].slot as int != t0.root_slot() && g2[
            k
        ].slot as int != xs && g2[k].generation == 0 && t0.height_of(g2[k].slot as int)
            == t0.height_of(xs) - 1 by {
            assert(ch.contains(g2[k]));
            let j = choose|j: int| 0 <= j < ch.len() && ch[j] == g2[k];
        }
        assert(!RTree::<ND>::slot_in(g1, xs)) by {
            if RTree::<ND>::slot_in(g1, xs) {
                let k = choose|k: int| 0 <= k < g1.len() && (#[trigger] g1[k]).slot == xs;
            }
        }
        assert(!RTree::<ND>::slot_in(g2, xs)) by {
            if RTree::<ND>::slot_in(g2, xs) {
                let k = choose|k: int| 0 <= k < g2.len() && (#[trigger] g2[k]).slot == xs;
            }
        }
        assert forall|n: int|
            RTree::<ND>::slot_in(ch, n) implies RTree::<ND>::slot_in(g1, n)
            || RTree::<ND>::slot_in(g2, n) by {
            let j = choose|j: int| 0 <= j < ch.len() && (#[trigger] ch[j]).slot == n;
            assert(g1.contains(ch[j]) || g2.contains(ch[j]));
            if g1.contains(ch[j]) {
                let k = choose|k: int| 0 <= k < g1.len() && g1[k] == ch[j];
                assert(g1[k].slot == n);
            } else {
                let k = choose|k: int| 0 <= k < g2.len() && g2[k] == ch[j];
                assert(g2[k].slot == n);
            }
        }
        assert forall|n: int|
            RTree::<ND>::slot_in(g1, n) implies !RTree::<ND>::slot_in(g2, n) by {
            if RTree::<ND>::slot_in(g2, n) {
                let k1 = choose|k: int| 0 <= k < g1.len() && (#[trigger] g1[k]).slot == n;
                let k2 = choose|k: int| 0 <= k < g2.len() && (#[trigger] g2[k]).slot == n;
                assert(g1[k1].slot != g2[k2].slot);
            }
        }
    }

    /// How the nodes stand right after a root split: the root keeps its
    /// region and handle but now has exactly the two fresh nodes as
    /// children; each fresh node carries one group; group members point
    /// to their new parent; everything else is untouched.
    pub open spec fn split_root_shape(
        t0: Self,
        tf: Self,
        index: Index,
        li: Index,
        ri: Index,
        g1: Seq<Index>,
        g2: Seq<Index>,
        m1: Seq<(int, int)>,
        m2: Seq<(int, int)>,
    ) -> bool {
        let xs = index.slot as int;
        let c0 = t0.node_count();
        let h = t0.height_of(xs);
        &&& tf.node_count() == c0 + 2
        &&& tf.node_count() <= usize::MAX
        &&& li == (Index { slot: c0 as usize, generation: 0 })
        &&& ri == (Index { slot: (c0 + 1) as usize, generation: 0 })
        &&& tf.root_handle() == t0.root_handle()
        &&& tf.spec_min_children() == t0.spec_min_children()
        &&& tf.spec_max_children() == t0.spec_max_children()
        &&& tf.height_seq() == t0.height_seq().update(xs, h + 1).push(h).push(h)
        &&& tf.children_of(xs) == seq![li, ri]
        &&& tf.node_at(xs).minimum_bounding_region == t0.node_at(xs).minimum_bounding_region
        &&& tf.node_at(xs).data == t0.node_at(xs).data
        &&& tf.node_at(xs).parent == t0.node_at(xs).parent
        &&& tf.children_of(c0) == g1
        &&& tf.mbr(c0) == m1
        &&& tf.node_at(c0).data is None
        &&& tf.node_at(c0).parent == Some(index)
        &&& tf.children_of(c0 + 1) == g2
        &&& tf.mbr(c0 + 1) == m2
        &&& tf.node_at(c0 + 1).data is None
        &&& tf.node_at(c0 + 1).parent == Some(index)
        &&& forall|n: int|
            RTree::<ND>::slot_in(g1, n) ==> (#[trigger] tf.node_at(n)).parent == Some(li)
                && tf.node_at(n).children == t0.node_at(n).children && tf.node_at(
                n,
            ).minimum_bounding_region == t0.node_at(n).minimum_bounding_region && tf.node_at(
                n,
            ).data == t0.node_at(n).data
        &&& forall|n: int|
            RTree::<ND>::slot_in(g2, n) ==> (#[trigger] tf.node_at(n)).parent == Some(ri)
                && tf.node_at(n).children == t0.node_at(n).children && tf.node_at(
                n,
            ).minimum_bounding_region == t0.node_at(n).minimum_bounding_region && tf.node_at(
                n,
            ).data == t0.node_at(n).data
        &&& forall|n: int|
            t0.valid_slot(n) && n != xs && !RTree::<ND>::slot_in(g1, n) && !RTree::<ND>::slot_in(
                g2,
                n,
            ) ==> #[trigger] tf.node_at(n) == t0.node_at(n)
    }

    /// A root split re-establishes the invariant: the root gains the
    /// two fresh nodes as its only children and the tree grows one
    /// level, with every leaf untouched.
    #[verifier::rlimit(100)]
    #[verifier::spinoff_prover]
    proof fn lemma_split_root_inv(
        t0: Self,
        tf: Self,
        index: Index,
        li: Index,
        ri: Index,
        ch: Seq<Index>,
        g1: Seq<Index>,
        g2: Seq<Index>,
        m1: Seq<(int, int)>,
        m2: Seq<(int, int)>,
    )
        requires
            t0.valid_index(index),
            t0.inv_except_overfull(index.slot as int),
            index.slot as int == t0.root_slot(),
            t0.partition_facts(index.slot as int, ch, g1, g2, m1, m2),
            Self::split_root_shape(t0, tf, index, li, ri, g1, g2, m1, m2),
        ensures
            tf.inv(),
            tf.same_shape_params(t0),
            tf.same_leaves_as(t0),
            tf.mbr(tf.root_slot()) == t0.mbr(t0.root_slot()),
            tf.height() == t0.height() + 1,
    {
        let xs = index.slot as int;
        let c0 = t0.node_count();
        let h = t0.height_of(xs);
        let rs = t0.root_slot();
        let dim0 = t0.dim();
        let ls = c0;
        let rs2 = c0 + 1;
        Self::lemma_member_facts(t0, index, ch, g1, g2, m1, m2);
        assert(tf.height_of(xs) == h + 1);
        assert(tf.height_of(ls) == h && tf.height_of(rs2) == h);
        assert forall|n: int|
            t0.valid_slot(n) && n != xs implies #[trigger] tf.height_of(n) == t0.height_of(n) by {}
        assert(tf.dim() == dim0);
        assert(tf.wf_params());
        assert(tf.wf_root());
        assert(tf.wf_regions()) by {
            assert forall|n: int| tf.valid_slot(n) implies region_wf(#[trigger] tf.mbr(n))
                && tf.mbr(n).len() == tf.dim() by {
                if n == ls || n == rs2 || n == xs {
                } else if RTree::<ND>::slot_in(g1, n) || RTree::<ND>::slot_in(g2, n) {
                    assert(tf.mbr(n) == t0.mbr(n));
                    assert(t0.valid_slot(n));
                    assert(region_wf(t0.mbr(n)) && t0.mbr(n).len() == dim0);
                } else {
                    assert(tf.node_at(n) == t0.node_at(n));
                    assert(t0.valid_slot(n));
                    assert(region_wf(t0.mbr(n)) && t0.mbr(n).len() == dim0);
                }
            }
        }
        assert forall|n: int, k: int|
            #![trigger tf.child_slot(n, k)]
            tf.valid_slot(n) && 0 <= k < tf.children_of(n).len() implies (tf.children_of(
                n,
            )[k].generation == 0 && tf.valid_slot(tf.child_slot(n, k)) && tf.child_slot(n, k)
                != tf.root_slot() && tf.parent_of(tf.child_slot(n, k)) == Some(
                (Index { slot: n as usize, generation: 0 }),
            ) && tf.height_of(tf.child_slot(n, k)) == tf.height_of(n) - 1 && region_contains(
                tf.mbr(n),
                tf.mbr(tf.child_slot(n, k)),
            )) by {
            if n == xs {
                assert(tf.child_slot(n, k) == ls || tf.child_slot(n, k) == rs2);
                assert(tf.mbr(xs) == t0.mbr(xs));
            } else if n == ls {
                assert(tf.child_slot(n, k) == g1[k].slot as int);
                assert(RTree::<ND>::slot_in(g1, tf.child_slot(n, k))) by {
                    assert(g1[k].slot == tf.child_slot(n, k));
                }
                assert(region_contains(m1, t0.mbr(g1[k].slot as int)));
            } else if n == rs2 {
                assert(tf.child_slot(n, k) == g2[k].slot as int);
                assert(RTree::<ND>::slot_in(g2, tf.child_slot(n, k))) by {
                    assert(g2[k].slot == tf.child_slot(n, k));
                }
                assert(region_contains(m2, t0.mbr(g2[k].slot as int)));
            } else {
                if RTree::<ND>::slot_in(g1, n) || RTree::<ND>::slot_in(g2, n) {
                    assert(tf.children_of(n) == t0.children_of(n) && tf.mbr(n) == t0.mbr(n));
                } else {
                    assert(tf.node_at(n) == t0.node_at(n));
                }
                t0.lemma_child_facts(n, k);
                let c = tf.child_slot(n, k);
                assert(c == t0.child_slot(n, k));
                assert(!RTree::<ND>::slot_in(ch, c)) by {
                    if RTree::<ND>::slot_in(ch, c) {
                        let j = choose|j: int| 0 <= j < ch.len() && (#[trigger] ch[j]).slot == c;
                        assert(t0.child_slot(xs, j) == c);
                        t0.lemma_child_facts(xs, j);
                        assert(t0.parent_of(c) == Some(index));
                        assert(t0.parent_of(c) == Some((Index { slot: n as usize, generation: 0 })));
                        assert(n == xs);
                    }
                }
                assert(c != xs);
                assert(tf.node_at(c) == t0.node_at(c));
            }
        }
        assert forall|n: int, k1: int, k2: int|
            #![trigger tf.child_slot(n, k1), tf.child_slot(n, k2)]
            tf.valid_slot(n) && 0 <= k1 < tf.children_of(n).len() && 0 <= k2 < tf.children_of(
                n,
            ).len() && k1 != k2 implies tf.child_slot(n, k1) != tf.child_slot(n, k2) by {
            if n == xs || n == ls || n == rs2 {
            } else {
                assert(tf.children_of(n) == t0.children_of(n)) by {
                    if RTree::<ND>::slot_in(g1, n) || RTree::<ND>::slot_in(g2, n) {
                        assert(tf.node_at(n).children == t0.node_at(n).children);
                    } else {
                        assert(tf.node_at(n) == t0.node_at(n));
                    }
                }
                assert(t0.child_slot(n, k1) != t0.child_slot(n, k2));
            }
        }
        assert forall|n: int|
            tf.valid_slot(n) && n != tf.root_slot() implies (#[trigger] tf.parent_of(n) is Some
                && tf.parent_gen_ok(n) && tf.valid_slot(tf.parent_slot(n)) && tf.listed_by_parent(
                n,
            )) by {
            if n == ls {
                assert(tf.child_slot(xs, 0) == n);
                assert(tf.parent_slot(n) == xs);
            } else if n == rs2 {
                assert(tf.child_slot(xs, 1) == n);
                assert(tf.parent_slot(n) == xs);
            } else if RTree::<ND>::slot_in(g1, n) {
                let k = choose|k: int| 0 <= k < g1.len() && (#[trigger] g1[k]).slot == n;
                assert(tf.child_slot(ls, k) == n);
                assert(tf.parent_slot(n) == ls);
            } else if RTree::<ND>::slot_in(g2, n) {
                let k = choose|k: int| 0 <= k < g2.len() && (#[trigger] g2[k]).slot == n;
                assert(tf.child_slot(rs2, k) == n);
                assert(tf.parent_slot(n) == rs2);
            } else {
                assert(t0.valid_slot(n) && n != rs);
                assert(t0.parent_of(n) is Some && t0.listed_by_parent(n));
                assert(tf.node_at(n) == t0.node_at(n));
                let p = t0.parent_slot(n);
                let k = choose|k: int|
                    0 <= k < t0.children_of(p).len() && #[trigger] t0.child_slot(p, k) == n;
                assert(p != xs) by {
                    if p == xs {
                        assert(RTree::<ND>::slot_in(ch, n)) by {
                            assert(ch[k].slot == n);
                        }
                        assert(RTree::<ND>::slot_in(g1, n) || RTree::<ND>::slot_in(g2, n));
                    }
                }
                assert(p != ls && p != rs2) by {
                    t0.lemma_parent_facts(n);
                }
                assert(tf.children_of(p) == t0.children_of(p)) by {
                    if RTree::<ND>::slot_in(g1, p) || RTree::<ND>::slot_in(g2, p) {
                        assert(tf.node_at(p).children == t0.node_at(p).children);
                    } else {
                        assert(tf.node_at(p) == t0.node_at(p));
                    }
                }
                assert(tf.child_slot(p, k) == n);
                assert(tf.parent_slot(n) == p);
                assert(tf.valid_slot(p)) by {
                    t0.lemma_parent_facts(n);
                }
            }
        }
        assert forall|n: int|
            tf.valid_slot(n) implies 0 <= #[trigger] tf.height_of(n) <= tf.node_count() && (
            tf.is_leaf(n) <==> tf.height_of(n) == 0) by {
            if n == ls || n == rs2 || n == xs {
            } else {
                assert(tf.height_of(n) == t0.height_of(n));
                assert(tf.is_leaf(n) == t0.is_leaf(n)) by {
                    if RTree::<ND>::slot_in(g1, n) || RTree::<ND>::slot_in(g2, n) {
                        assert(tf.node_at(n).data == t0.node_at(n).data);
                    } else {
                        assert(tf.node_at(n) == t0.node_at(n));
                    }
                }
            }
        }
        assert(tf.core_inv());
        assert(tf.fanout_ok()) by {
            assert forall|n: int|
                tf.valid_slot(n) && n != tf.root_slot() && !tf.is_leaf(n)
                    implies tf.spec_min_children() <= #[trigger] tf.children_of(n).len()
                    < tf.spec_max_children() by {
                if n == ls || n == rs2 {
                } else {
                    assert(tf.children_of(n) == t0.children_of(n) && tf.is_leaf(n) == t0.is_leaf(
                        n,
                    )) by {
                        if RTree::<ND>::slot_in(g1, n) || RTree::<ND>::slot_in(g2, n) {
                            assert(tf.node_at(n).children == t0.node_at(n).children
                                && tf.node_at(n).data == t0.node_at(n).data);
                        } else {
                            assert(tf.node_at(n) == t0.node_at(n));
                        }
                    }
                }
            }
            assert forall|n: int|
                tf.valid_slot(n) && tf.is_leaf(n) implies #[trigger] tf.children_of(n).len()
                    == 0 by {
                assert(n != xs && n != ls && n != rs2);
                assert(tf.children_of(n) == t0.children_of(n) && t0.is_leaf(n)) by {
                    if RTree::<ND>::slot_in(g1, n) || RTree::<ND>::slot_in(g2, n) {
                        assert(tf.node_at(n).children == t0.node_at(n).children && tf.node_at(
                            n,
                        ).data == t0.node_at(n).data);
                    } else {
                        assert(tf.node_at(n) == t0.node_at(n));
                    }
                }
            }
            assert(tf.children_of(tf.root_slot()).len() == 2);
        }
        assert(tf.same_leaves_as(t0)) by {
            assert forall|n: int|
                t0.valid_slot(n) && t0.is_leaf(n) implies tf.is_leaf(n) && (#[trigger] tf.node_at(
                    n,
                )).minimum_bounding_region@ == t0.node_at(n).minimum_bounding_region@
                && tf.node_at(n).data == t0.node_at(n).data by {
                assert(n != xs);
                if RTree::<ND>::slot_in(g1, n) || RTree::<ND>::slot_in(g2, n) {
                } else {
                    assert(tf.node_at(n) == t0.node_at(n));
                }
            }
            assert forall|n: int|
                tf.valid_slot(n) && #[trigger] tf.is_leaf(n) implies t0.valid_slot(n)
                    && t0.is_leaf(n) by {
                assert(n != ls && n != rs2 && n != xs);
                if RTree::<ND>::slot_in(g1, n) || RTree::<ND>::slot_in(g2, n) {
                    assert(tf.node_at(n).data == t0.node_at(n).data);
                } else {
                    assert(tf.node_at(n) == t0.node_at(n));
                }
            }
        }
    }

    /// How the nodes stand right after a non-root split: the split node
    /// keeps the first group under its new, tighter region; a fresh
    /// sibling carries the second group; the parent gains the sibling
    /// as one more child; everything else is untouched.
    pub open spec fn split_nonroot_shape(
        t0: Self,
        tf: Self,
        index: Index,
        parent: Index,
        ri: Index,
        g1: Seq<Index>,
        g2: Seq<Index>,
        m1: Seq<(int, int)>,
        m2: Seq<(int, int)>,
    ) -> bool {
        let xs = index.slot as int;
        let ps = parent.slot as int;
        let c0 = t0.node_count();
        let h = t0.height_of(xs);
        &&& tf.node_count() == c0 + 1
        &&& tf.node_count() <= usize::MAX
        &&& ri == (Index { slot: c0 as usize, generation: 0 })
        &&& tf.root_handle() == t0.root_handle()
        &&& tf.spec_min_children() == t0.spec_min_children()
        &&& tf.spec_max_children() == t0.spec_max_children()
        &&& tf.height_seq() == t0.height_seq().push(h)
        &&& tf.mbr(xs) == m1
        &&& tf.children_of(xs) == g1
        &&& tf.node_at(xs).data == t0.node_at(xs).data
        &&& tf.node_at(xs).parent == t0.node_at(xs).parent
        &&& tf.children_of(c0) == g2
        &&& tf.mbr(c0) == m2
        &&& tf.node_at(c0).data is None
        &&& tf.node_at(c0).parent == Some(parent)
        &&& tf.children_of(ps) == t0.children_of(ps).push(ri)
        &&& tf.node_at(ps).minimum_bounding_region == t0.node_at(ps).minimum_bounding_region
        &&& tf.node_at(ps).data == t0.node_at(ps).data
        &&& tf.node_at(ps).parent == t0.node_at(ps).parent
        &&& forall|n: int|
            RTree::<ND>::slot_in(g2, n) ==> (#[trigger] tf.node_at(n)).parent == Some(ri)
                && tf.node_at(n).children == t0.node_at(n).children && tf.node_at(
                n,
            ).minimum_bounding_region == t0.node_at(n).minimum_bounding_region && tf.node_at(
                n,
            ).data == t0.node_at(n).data
        &&& forall|n: int|
            t0.valid_slot(n) && n != xs && n != ps && !RTree::<ND>::slot_in(g2, n)
                ==> #[trigger] tf.node_at(n) == t0.node_at(n)
    }

    /// A non-root split re-establishes the invariant everywhere except
    /// possibly at the parent, which gained one child: if the parent is
    /// now at the maximum fanout the split must continue there,
    /// otherwise the full invariant holds.  Every leaf is untouched.
    #[verifier::rlimit(100)]
    #[verifier::spinoff_prover]
    proof fn lemma_split_nonroot_inv(
        t0: Self,
        tf: Self,
        index: Index,
        parent: Index,
        ri: Index,
        ch: Seq<Index>,
        g1: Seq<Index>,
        g2: Seq<Index>,
        m1: Seq<(int, int)>,
        m2: Seq<(int, int)>,
    )
        requires
            t0.valid_index(index),
            t0.inv_except_overfull(index.slot as int),
            index.slot as int != t0.root_slot(),
            t0.parent_of(index.slot as int) == Some(parent),
            t0.partition_facts(index.slot as int, ch, g1, g2, m1, m2),
            Self::split_nonroot_shape(t0, tf, index, parent, ri, g1, g2, m1, m2),
        ensures
            tf.same_shape_params(t0),
            tf.same_leaves_as(t0),
            tf.mbr(tf.root_slot()) == t0.mbr(t0.root_slot()),
            tf.height() == t0.height(),
            tf.valid_index(parent),
            tf.valid_slot(parent.slot as int),
            tf.height_of(parent.slot as int) == t0.height_of(index.slot as int) + 1,
            tf.children_of(parent.slot as int).len() == t0.children_of(
                parent.slot as int,
            ).len() + 1,
            tf.children_of(parent.slot as int).len() <= tf.spec_max_children(),
            tf.children_of(parent.slot as int).len() == tf.spec_max_children()
                ==> tf.inv_except_overfull(parent.slot as int),
            tf.children_of(parent.slot as int).len() < tf.spec_max_children() ==> tf.inv(),
    {
        let xs = index.slot as int;
        let ps = parent.slot as int;
        let c0 = t0.node_count();
        let h = t0.height_of(xs);
        let rs = t0.root_slot();
        let dim0 = t0.dim();
        let ns = c0;
        Self::lemma_member_facts(t0, index, ch, g1, g2, m1, m2);
        t0.lemma_parent_facts(xs);
        assert(parent.generation == 0 && t0.valid_slot(ps));
        assert(t0.height_of(ps) == h + 1);
        assert(ps != xs);
        assert(!RTree::<ND>::slot_in(ch, ps) && !RTree::<ND>::slot_in(g1, ps)
            && !RTree::<ND>::slot_in(g2, ps)) by {
            if RTree::<ND>::slot_in(ch, ps) {
                let j = choose|j: int| 0 <= j < ch.len() && (#[trigger] ch[j]).slot == ps;
                assert(t0.child_slot(xs, j) == ps);
                t0.lemma_child_facts(xs, j);
            }
            if RTree::<ND>::slot_in(g1, ps) {
                let k = choose|k: int| 0 <= k < g1.len() && (#[trigger] g1[k]).slot == ps;
            }
            if RTree::<ND>::slot_in(g2, ps) {
                let k = choose|k: int| 0 <= k < g2.len() && (#[trigger] g2[k]).slot == ps;
            }
        }
        assert forall|n: int| t0.valid_slot(n) implies #[trigger] tf.height_of(n)
            == t0.height_of(n) by {}
        assert(tf.height_of(ns) == h);
        assert(rs != ns && rs != xs);
        assert(tf.dim() == dim0) by {
            if rs == ps {
            } else {
                assert(!RTree::<ND>::slot_in(g2, rs)) by {
                    if RTree::<ND>::slot_in(g2, rs) {
                        let k = choose|k: int| 0 <= k < g2.len() && (#[trigger] g2[k]).slot == rs;
                    }
                }
                assert(tf.node_at(rs) == t0.node_at(rs));
            }
        }
        assert(tf.mbr(tf.root_slot()) == t0.mbr(rs)) by {
            if rs == ps {
            } else {
                assert(tf.node_at(rs) == t0.node_at(rs));
            }
        }
        assert(region_contains(t0.mbr(ps), m1) && region_contains(t0.mbr(ps), m2)) by {
            assert(region_contains(t0.mbr(ps), t0.mbr(xs)));
            crate::geometry::region::lemma_contains_trans(t0.mbr(ps), t0.mbr(xs), m1);
            crate::geometry::region::lemma_contains_trans(t0.mbr(ps), t0.mbr(xs), m2);
        }
        assert(tf.wf_params());
        assert(tf.wf_root());
        assert(tf.wf_regions()) by {
            assert forall|n: int| tf.valid_slot(n) implies region_wf(#[trigger] tf.mbr(n))
                && tf.mbr(n).len() == tf.dim() by {
                if n == xs || n == ns {
                } else {
                    assert(n < c0);
                    assert(t0.valid_slot(n));
                    if n == ps || RTree::<ND>::slot_in(g2, n) {
                        assert(tf.mbr(n) == t0.mbr(n));
                    } else {
                        assert(tf.node_at(n) == t0.node_at(n));
                    }
                    assert(region_wf(t0.mbr(n)) && t0.mbr(n).len() == dim0);
                }
            }
        }
        assert forall|n: int, k: int|
            #![trigger tf.child_slot(n, k)]
            tf.valid_slot(n) && 0 <= k < tf.children_of(n).len() implies (tf.children_of(
                n,
            )[k].generation == 0 && tf.valid_slot(tf.child_slot(n, k)) && tf.child_slot(n, k)
                != tf.root_slot() && tf.parent_of(tf.child_slot(n, k)) == Some(
                (Index { slot: n as usize, generation: 0 }),
            ) && tf.height_of(tf.child_slot(n, k)) == tf.height_of(n) - 1 && region_contains(
                tf.mbr(n),
                tf.mbr(tf.child_slot(n, k)),
            )) by {
            if n == xs {
                assert(tf.child_slot(n, k) == g1[k].slot as int);
                assert(RTree::<ND>::slot_in(g1, tf.child_slot(n, k))) by {
                    assert(g1[k].slot == tf.child_slot(n, k));
                }
                let c = tf.child_slot(n, k);
                assert(!RTree::<ND>::slot_in(g2, c));
                assert(c != ps && c != xs);
                assert(tf.node_at(c) == t0.node_at(c));
                assert(region_contains(m1, t0.mbr(c)));
            } else if n == ns {
                assert(tf.child_slot(n, k) == g2[k].slot as int);
                assert(RTree::<ND>::slot_in(g2, tf.child_slot(n, k))) by {
                    assert(g2[k].slot == tf.child_slot(n, k));
                }
                assert(region_contains(m2, t0.mbr(g2[k].slot as int)));
            } else if n == ps {
                if k < t0.children_of(ps).len() {
                    t0.lemma_child_facts(ps, k);
                    let c = tf.child_slot(n, k);
                    assert(c == t0.child_slot(ps, k));
                    if c == xs {
                        assert(region_contains(t0.mbr(ps), m1));
                        assert(tf.mbr(xs) == m1);
                    } else {
                        assert(!RTree::<ND>::slot_in(ch, c)) by {
                            if RTree::<ND>::slot_in(ch, c) {
                                let j = choose|j: int|
                                    0 <= j < ch.len() && (#[trigger] ch[j]).slot == c;
                                assert(t0.child_slot(xs, j) == c);
                                t0.lemma_child_facts(xs, j);
                                assert(t0.parent_of(c) == Some(index));
                                assert(ps == xs);
                            }
                        }
                        assert(c != ps) by {
                            if c == ps {
                                assert(t0.height_of(ps) == t0.height_of(ps) - 1);
                            }
                        }
                        if RTree::<ND>::slot_in(g2, c) {
                            assert(RTree::<ND>::slot_in(ch, c));
                            assert(false);
                        }
                        assert(tf.node_at(c) == t0.node_at(c));
                    }
                } else {
                    assert(tf.child_slot(n, k) == ns);
                    assert(region_contains(t0.mbr(ps), m2));
                }
            } else {
                // n is an untouched node or a member of the second group
                assert(tf.children_of(n) == t0.children_of(n)) by {
                    if RTree::<ND>::slot_in(g2, n) {
                        assert(tf.node_at(n).children == t0.node_at(n).children);
                    } else {
                        assert(tf.node_at(n) == t0.node_at(n));
                    }
                }
                assert(tf.mbr(n) == t0.mbr(n)) by {
                    if RTree::<ND>::slot_in(g2, n) {
                        assert(tf.node_at(n).minimum_bounding_region == t0.node_at(
                            n,
                        ).minimum_bounding_region);
                    } else {
                        assert(tf.node_at(n) == t0.node_at(n));
                    }
                }
                t0.lemma_child_facts(n, k);
                let c = tf.child_slot(n, k);
                assert(c == t0.child_slot(n, k));
                assert(!RTree::<ND>::slot_in(ch, c)) by {
                    if RTree::<ND>::slot_in(ch, c) {
                        let j = choose|j: int| 0 <= j < ch.len() && (#[trigger] ch[j]).slot == c;
                        assert(t0.child_slot(xs, j) == c);
                        t0.lemma_child_facts(xs, j);
                        assert(t0.parent_of(c) == Some(index));
                        assert(n == xs);
                    }
                }
                assert(c != xs) by {
                    if c == xs {
                        assert(t0.parent_of(xs) == Some((Index { slot: n as usize, generation: 0 })));
                        assert(n == ps);
                    }
                }
                assert(!RTree::<ND>::slot_in(g2, c));
                if c == ps {
                    assert(tf.parent_of(c) == t0.parent_of(c));
                    assert(tf.mbr(c) == t0.mbr(c));
                } else {
                    assert(tf.node_at(c) == t0.node_at(c));
                }
            }
        }
        assert forall|n: int, k1: int, k2: int|
            #![trigger tf.child_slot(n, k1), tf.child_slot(n, k2)]
            tf.valid_slot(n) && 0 <= k1 < tf.children_of(n).len() && 0 <= k2 < tf.children_of(
                n,
            ).len() && k1 != k2 implies tf.child_slot(n, k1) != tf.child_slot(n, k2) by {
            if n == ps {
                if k1 == tf.children_of(ps).len() - 1 || k2 == tf.children_of(ps).len() - 1 {
                    let o = if k1 < k2 {
                        k1
                    } else {
                        k2
                    };
                    t0.lemma_child_facts(ps, o);
                    assert(tf.child_slot(ps, o) == t0.child_slot(ps, o));
                    assert(t0.child_slot(ps, o) < c0);
                    assert(tf.child_slot(ps, tf.children_of(ps).len() - 1) == ns);
                } else {
                    assert(tf.child_slot(ps, k1) == t0.child_slot(ps, k1));
                    assert(tf.child_slot(ps, k2) == t0.child_slot(ps, k2));
                    assert(t0.child_slot(ps, k1) != t0.child_slot(ps, k2));
                }
            } else if n == xs || n == ns {
            } else {
                assert(tf.children_of(n) == t0.children_of(n)) by {
                    if RTree::<ND>::slot_in(g2, n) {
                        assert(tf.node_at(n).children == t0.node_at(n).children);
                    } else {
                        assert(tf.node_at(n) == t0.node_at(n));
                    }
                }
                assert(t0.valid_slot(n));
                assert(t0.child_slot(n, k1) != t0.child_slot(n, k2));
            }
        }
        assert forall|n: int|
            tf.valid_slot(n) && n != tf.root_slot() implies (#[trigger] tf.parent_of(n) is Some
                && tf.parent_gen_ok(n) && tf.valid_slot(tf.parent_slot(n)) && tf.listed_by_parent(
                n,
            )) by {
            if n == xs {
                let k = choose|k: int|
                    0 <= k < t0.children_of(ps).len() && #[trigger] t0.child_slot(ps, k) == xs;
                assert(tf.child_slot(ps, k) == xs);
                assert(tf.parent_slot(xs) == ps);
            } else if n == ns {
                assert(tf.child_slot(ps, tf.children_of(ps).len() - 1) == ns);
                assert(tf.parent_slot(ns) == ps);
            } else if RTree::<ND>::slot_in(g1, n) {
                let k = choose|k: int| 0 <= k < g1.len() && (#[trigger] g1[k]).slot == n;
                assert(tf.child_slot(xs, k) == n);
                assert(tf.node_at(n) == t0.node_at(n)) by {
                    assert(!RTree::<ND>::slot_in(g2, n));
                    assert(n != ps && n != xs);
                }
                assert(tf.parent_of(n) == Some(index));
                assert(tf.parent_slot(n) == xs);
            } else if RTree::<ND>::slot_in(g2, n) {
                let k = choose|k: int| 0 <= k < g2.len() && (#[trigger] g2[k]).slot == n;
                assert(tf.child_slot(ns, k) == n);
                assert(tf.parent_slot(n) == ns);
            } else {
                assert(t0.valid_slot(n) && n != rs);
                assert(t0.parent_of(n) is Some && t0.listed_by_parent(n));
                let p = t0.parent_slot(n);
                let k = choose|k: int|
                    0 <= k < t0.children_of(p).len() && #[trigger] t0.child_slot(p, k) == n;
                assert(p != xs) by {
                    if p == xs {
                        assert(RTree::<ND>::slot_in(ch, n)) by {
                            assert(ch[k].slot == n);
                        }
                        assert(RTree::<ND>::slot_in(g1, n) || RTree::<ND>::slot_in(g2, n));
                    }
                }
                assert(tf.parent_of(n) == t0.parent_of(n)) by {
                    assert(n != ps || tf.node_at(ps).parent == t0.node_at(ps).parent);
                    if n != ps {
                        assert(tf.node_at(n) == t0.node_at(n));
                    }
                }
                if p == ps {
                    assert(tf.child_slot(ps, k) == n);
                } else {
                    assert(tf.children_of(p) == t0.children_of(p)) by {
                        assert(p != ns) by {
                            t0.lemma_parent_facts(n);
                        }
                        if RTree::<ND>::slot_in(g2, p) {
                            assert(tf.node_at(p).children == t0.node_at(p).children);
                        } else {
                            assert(tf.node_at(p) == t0.node_at(p));
                        }
                    }
                    assert(tf.child_slot(p, k) == n);
                }
                assert(tf.parent_slot(n) == p);
                assert(tf.valid_slot(p)) by {
                    t0.lemma_parent_facts(n);
                }
            }
        }
        assert forall|n: int|
            tf.valid_slot(n) implies 0 <= #[trigger] tf.height_of(n) <= tf.node_count() && (
            tf.is_leaf(n) <==> tf.height_of(n) == 0) by {
            if n == ns {
            } else {
                assert(tf.height_of(n) == t0.height_of(n));
                assert(tf.is_leaf(n) == t0.is_leaf(n)) by {
                    if n == xs || n == ps || RTree::<ND>::slot_in(g2, n) {
                        assert(tf.node_at(n).data == t0.node_at(n).data);
                    } else {
                        assert(tf.node_at(n) == t0.node_at(n));
                    }
                }
            }
        }
        assert(tf.core_inv());
        assert(tf.same_leaves_as(t0)) by {
            assert forall|n: int|
                t0.valid_slot(n) && t0.is_leaf(n) implies tf.is_leaf(n) && (#[trigger] tf.node_at(
                    n,
                )).minimum_bounding_region@ == t0.node_at(n).minimum_bounding_region@
                && tf.node_at(n).data == t0.node_at(n).data by {
                assert(n != xs && n != ps);
                if RTree::<ND>::slot_in(g2, n) {
                } else {
                    assert(tf.node_at(n) == t0.node_at(n));
                }
            }
            assert forall|n: int|
                tf.valid_slot(n) && #[trigger] tf.is_leaf(n) implies t0.valid_slot(n)
                    && t0.is_leaf(n) by {
                assert(n != ns);
                if n == xs || n == ps || RTree::<ND>::slot_in(g2, n) {
                    assert(tf.node_at(n).data == t0.node_at(n).data);
                } else {
                    assert(tf.node_at(n) == t0.node_at(n));
                }
            }
        }
        // fanout, with the parent possibly over-full now
        assert forall|n: int|
            tf.valid_slot(n) && n != tf.root_slot() && !tf.is_leaf(n) && n != ps
                implies tf.spec_min_children() <= #[trigger] tf.children_of(n).len()
                < tf.spec_max_children() by {
            if n == xs || n == ns {
            } else {
                assert(tf.children_of(n) == t0.children_of(n) && tf.is_leaf(n) == t0.is_leaf(
                    n,
                )) by {
                    if RTree::<ND>::slot_in(g2, n) {
                        assert(tf.node_at(n).children == t0.node_at(n).children && tf.node_at(
                            n,
                        ).data == t0.node_at(n).data);
                    } else {
                        assert(tf.node_at(n) == t0.node_at(n));
                    }
                }
            }
        }
        assert forall|n: int|
            tf.valid_slot(n) && tf.is_leaf(n) implies #[trigger] tf.children_of(n).len() == 0 by {
            assert(n != xs && n != ns && n != ps);
            assert(tf.children_of(n) == t0.children_of(n) && t0.is_leaf(n)) by {
                if RTree::<ND>::slot_in(g2, n) {
                    assert(tf.node_at(n).children == t0.node_at(n).children && tf.node_at(n).data
                        == t0.node_at(n).data);
                } else {
                    assert(tf.node_at(n) == t0.node_at(n));
                }
            }
        }
        assert(tf.children_of(ps).len() == t0.children_of(ps).len() + 1);
        assert(tf.children_of(ps).len() <= tf.spec_max_children());
        assert(tf.children_of(tf.root_slot()).len() > 0) by {
            if rs == ps {
            } else {
                assert(tf.node_at(rs) == t0.node_at(rs));
                assert(t0.children_of(rs).len() > 0) by {
                    assert(t0.node_count() != 1);
                }
            }
        }
        if tf.children_of(ps).len() == tf.spec_max_children() {
            assert(!tf.is_leaf(ps));
            assert(tf.inv_except_overfull(ps)) by {
                if ps != rs {
                    assert(tf.children_of(rs).len() < tf.spec_max_children()) by {
                        assert(tf.node_at(rs) == t0.node_at(rs));
                    }
                }
            }
        } else {
            assert(tf.inv()) by {
                if ps != rs && !tf.is_leaf(ps) {
                    assert(tf.spec_min_children() <= tf.children_of(ps).len()
                        < tf.spec_max_children());
                }
                if ps == rs {
                } else {
                    assert(tf.children_of(rs).len() < tf.spec_max_children()) by {
                        assert(tf.node_at(rs) == t0.node_at(rs));
                    }
                }
            }
        }
    }

    /// Everything a split guarantees beyond the invariant: the exact
    /// shape of the rebuilt level (two fresh internal nodes under the
    /// root, or a reused node plus one fresh sibling under the parent,
    /// recursing exactly when the parent fills up), that only the split
    /// node, its ancestors and their listed children are ever written,
    /// and that no region grows.
    pub open spec fn split_outcome(t0: Self, tf: Self, index: Index) -> bool {
        &&& (index == t0.root_handle() ==> exists|
            g1: Seq<Index>,
            g2: Seq<Index>,
            m1: Seq<(int, int)>,
            m2: Seq<(int, int)>,
        |
            t0.partition_facts(
                index.slot as int,
                t0.children_of(index.slot as int),
                g1,
                g2,
                m1,
                m2,
            ) && #[trigger] Self::split_root_shape(
                t0,
                tf,
                index,
                (Index { slot: t0.node_count() as usize, generation: 0 }),
                (Index { slot: (t0.node_count() + 1) as usize, generation: 0 }),
                g1,
                g2,
                m1,
                m2,
            ))
        &&& (index != t0.root_handle() ==> exists|
            g1: Seq<Index>,
            g2: Seq<Index>,
            m1: Seq<(int, int)>,
            m2: Seq<(int, int)>,
            mid: Self,
        |
            t0.partition_facts(
                index.slot as int,
                t0.children_of(index.slot as int),
                g1,
                g2,
                m1,
                m2,
            ) && #[trigger] Self::split_nonroot_shape(
                t0,
                mid,
                index,
                t0.parent_of(index.slot as int).unwrap(),
                (Index { slot: t0.node_count() as usize, generation: 0 }),
                g1,
                g2,
                m1,
                m2,
            ) && (mid.children_of(t0.parent_slot(index.slot as int)).len()
                < t0.spec_max_children() ==> tf == mid) && (mid.children_of(
                t0.parent_slot(index.slot as int),
            ).len() == t0.spec_max_children() ==> tf.same_leaves_as(mid) && tf.same_shape_params(
                mid,
            ) && mid.node_count() <= tf.node_count() && tf.mbr(tf.root_slot()) == mid.mbr(
                mid.root_slot(),
            )))
        &&& forall|n: int|
            t0.valid_slot(n) && !t0.in_subtree(n, index.slot as int) && !(t0.parent_of(n) is Some
                && t0.in_subtree(t0.parent_slot(n), index.slot as int)) ==> #[trigger] tf.node_at(
                n,
            ) == t0.node_at(n)
        &&& forall|n: int|
            t0.valid_slot(n) ==> region_contains(t0.mbr(n), #[trigger] tf.mbr(n))
    }

    /// Splits the over-full node at `index`: partitions its children
    /// into two groups and rebuilds the tree around them.  At the root,
    /// two new internal nodes take over the two groups and become the
    /// root's only children, growing the tree by one level; elsewhere,
    /// the node keeps the first group, a new sibling takes the second,
    /// and the split recurses toward the root if the parent overflows
    /// in turn.
    #[verifier::rlimit(100)]
    #[verifier::spinoff_prover]
    pub(crate) fn split_node(&mut self, index: Index)
        requires
            old(self).valid_index(index),
            old(self).inv_except_overfull(index.slot as int),
            old(self).height_of(index.slot as int) <= old(self).height(),
        ensures
            final(self).inv(),
            final(self).same_shape_params(*old(self)),
            final(self).same_leaves_as(*old(self)),
            old(self).node_count() <= final(self).node_count(),
            final(self).mbr(final(self).root_slot()) == old(self).mbr(old(self).root_slot()),
            Self::split_outcome(*old(self), *final(self), index),
        decreases old(self).height() - old(self).height_of(index.slot as int),
    {
        let ghost t0 = *self;
        let ghost xs = index.slot as int;
        let ghost dim0 = t0.dim();
        let ghost hx = t0.height_of(xs);
        let ghost c0 = t0.node_count();
        let ghost rs = t0.root_slot();

        proof {
            self.nodes.lemma_len_bound();
            assert(0 <= hx);
            assert(!t0.is_leaf(xs));
            assert(hx >= 1);
            assert forall|k: int| 0 <= k < t0.children_of(xs).len() implies t0.valid_slot(
                #[trigger] t0.child_slot(xs, k),
            ) && t0.child_slot(xs, k) != xs && region_wf(t0.mbr(t0.child_slot(xs, k)))
                && t0.mbr(t0.child_slot(xs, k)).len() == dim0 && region_contains(
                t0.mbr(xs),
                t0.mbr(t0.child_slot(xs, k)),
            ) by {
                t0.lemma_child_facts(xs, k);
            }
        }
        let children = self.nodes.at_mut(index).clear_children();
        let ghost ch = children@;
        proof {
            assert(ch == t0.children_of(xs));
            assert forall|k1: int, k2: int|
                #![trigger ch[k1].slot, ch[k2].slot]
                0 <= k1 < ch.len() && 0 <= k2 < ch.len() && k1 != k2 implies ch[k1].slot
                != ch[k2].slot by {
                assert(t0.child_slot(xs, k1) != t0.child_slot(xs, k2));
            }
            assert(RTree::<ND>::slots_distinct(ch));
            assert(self.node_seq() == t0.node_seq().update(xs, self.node_at(xs)));
            assert forall|k: int| 0 <= k < ch.len() implies self.valid_index(#[trigger] ch[k])
                && region_wf(self.mbr(ch[k].slot as int)) && self.mbr(ch[k].slot as int).len()
                == dim0 by {
                assert(ch[k].slot as int == t0.child_slot(xs, k));
                assert(ch[k].slot as int != xs);
                assert(self.node_at(ch[k].slot as int) == t0.node_at(ch[k].slot as int));
                assert(ch[k].generation == 0) by {
                    t0.lemma_child_facts(xs, k);
                }
            }
            assert(self.mbr(rs) == t0.mbr(rs)) by {
                if rs != xs {
                    assert(self.node_at(rs) == t0.node_at(rs));
                }
            }
            assert(self.dim() == dim0);
            assert(self.regions_ok(ch, self.dim()));
        }
        let (left_vec, right_vec, left_mbr, right_mbr) = self.quadratic_partition(children);
        let ghost g1 = left_vec@;
        let ghost g2 = right_vec@;
        let ghost m1 = left_mbr@;
        let ghost m2 = right_mbr@;
        proof {
            // move the partition's guarantees over to the original tree,
            // whose member regions the surgery has not touched
            assert forall|k: int| 0 <= k < g1.len() implies self.mbr(
                (#[trigger] g1[k]).slot as int,
            ) == t0.mbr(g1[k].slot as int) by {
                assert(ch.contains(g1[k]));
                let j = choose|j: int| 0 <= j < ch.len() && ch[j] == g1[k];
                assert(g1[k].slot as int == t0.child_slot(xs, j));
                assert(g1[k].slot as int != xs);
                assert(self.node_at(g1[k].slot as int) == t0.node_at(g1[k].slot as int));
            }
            assert forall|k: int| 0 <= k < g2.len() implies self.mbr(
                (#[trigger] g2[k]).slot as int,
            ) == t0.mbr(g2[k].slot as int) by {
                assert(ch.contains(g2[k]));
                let j = choose|j: int| 0 <= j < ch.len() && ch[j] == g2[k];
                assert(g2[k].slot as int == t0.child_slot(xs, j));
                assert(g2[k].slot as int != xs);
                assert(self.node_at(g2[k].slot as int) == t0.node_at(g2[k].slot as int));
            }
            assert(region_contains(t0.mbr(xs), m1)) by {
                assert(t0.mbr(xs).len() == dim0);
                assert forall|m: int| 0 <= m < g1.len() implies region_contains(
                    t0.mbr(xs),
                    self.mbr((#[trigger] g1[m]).slot as int),
                ) by {
                    assert(ch.contains(g1[m]));
                    let j = choose|j: int| 0 <= j < ch.len() && ch[j] == g1[m];
                    assert(region_contains(t0.mbr(xs), t0.mbr(t0.child_slot(xs, j))));
                }
            }
            assert(region_contains(t0.mbr(xs), m2)) by {
                assert(t0.mbr(xs).len() == dim0);
                assert forall|m: int| 0 <= m < g2.len() implies region_contains(
                    t0.mbr(xs),
                    self.mbr((#[trigger] g2[m]).slot as int),
                ) by {
                    assert(ch.contains(g2[m]));
                    let j = choose|j: int| 0 <= j < ch.len() && ch[j] == g2[m];
                    assert(region_contains(t0.mbr(xs), t0.mbr(t0.child_slot(xs, j))));
                }
            }
            assert forall|m: int| 0 <= m < g1.len() implies region_contains(
                m1,
                t0.mbr((#[trigger] g1[m]).slot as int),
            ) by {
                assert(region_contains(m1, self.mbr(g1[m].slot as int)));
            }
            assert forall|m: int| 0 <= m < g2.len() implies region_contains(
                m2,
                t0.mbr((#[trigger] g2[m]).slot as int),
            ) by {
                assert(region_contains(m2, self.mbr(g2[m].slot as int)));
            }
            assert(t0.partition_facts(xs, ch, g1, g2, m1, m2));
            Self::lemma_member_facts(t0, index, ch, g1, g2, m1, m2);
        }

        if index == self.root {
            proof {
                self.nodes.lemma_len_bound();
            }
            let left_index = self.nodes.insert(Node::new_internal_node(left_mbr, Some(index)));
            proof {
                assert forall|k: int|
                    0 <= k < g1.len() implies self.valid_index(#[trigger] g1[k]) && g1[k].slot
                    != left_index.slot by {
                    assert(t0.valid_slot(g1[k].slot as int));
                }
            }
            self.set_children_safe(left_index, left_vec);
            proof {
                self.nodes.lemma_len_bound();
            }
            let right_index = self.nodes.insert(Node::new_internal_node(right_mbr, Some(index)));
            proof {
                assert(self.node_count() == c0 + 2);
                assert forall|k: int|
                    0 <= k < g2.len() implies self.valid_index(#[trigger] g2[k]) && g2[k].slot
                    != right_index.slot by {
                    assert(t0.valid_slot(g2[k].slot as int));
                }
            }
            self.set_children_safe(right_index, right_vec);
            let mut pair: Vec<Index> = Vec::new();
            pair.push(left_index);
            pair.push(right_index);
            proof {
                assert(self.children_of(xs).len() == 0);
            }
            self.nodes.at_mut(index).set_children_unchecked(pair);
            self.heights = Ghost(t0.height_seq().update(xs, hx + 1).push(hx).push(hx));
            proof {
                self.nodes.lemma_len_bound();
                assert(Self::split_root_shape(
                    t0,
                    *self,
                    index,
                    left_index,
                    right_index,
                    g1,
                    g2,
                    m1,
                    m2,
                )) by {
                    assert(self.children_of(xs) =~= seq![left_index, right_index]);
                    assert forall|n: int| RTree::<ND>::slot_in(g1, n) implies (
                    #[trigger] self.node_at(n)).parent == Some(left_index) && self.node_at(
                        n,
                    ).children == t0.node_at(n).children && self.node_at(
                        n,
                    ).minimum_bounding_region == t0.node_at(n).minimum_bounding_region
                        && self.node_at(n).data == t0.node_at(n).data by {
                        let k = choose|k: int| 0 <= k < g1.len() && (#[trigger] g1[k]).slot == n;
                        assert(!RTree::<ND>::slot_in(g2, n));
                    }
                    assert forall|n: int| RTree::<ND>::slot_in(g2, n) implies (
                    #[trigger] self.node_at(n)).parent == Some(right_index) && self.node_at(
                        n,
                    ).children == t0.node_at(n).children && self.node_at(
                        n,
                    ).minimum_bounding_region == t0.node_at(n).minimum_bounding_region
                        && self.node_at(n).data == t0.node_at(n).data by {
                        let k = choose|k: int| 0 <= k < g2.len() && (#[trigger] g2[k]).slot == n;
                    }
                    assert forall|n: int|
                        t0.valid_slot(n) && n != xs && !RTree::<ND>::slot_in(g1, n)
                            && !RTree::<ND>::slot_in(g2, n) implies #[trigger] self.node_at(n)
                        == t0.node_at(n) by {}
                }
                Self::lemma_split_root_inv(
                    t0,
                    *self,
                    index,
                    left_index,
                    right_index,
                    ch,
                    g1,
                    g2,
                    m1,
                    m2,
                );
                assert(left_index == (Index { slot: t0.node_count() as usize, generation: 0 }));
                assert(right_index == (Index {
                    slot: (t0.node_count() + 1) as usize,
                    generation: 0,
                }));
                assert(Self::split_root_shape(
                    t0,
                    *self,
                    index,
                    (Index { slot: t0.node_count() as usize, generation: 0 }),
                    (Index { slot: (t0.node_count() + 1) as usize, generation: 0 }),
                    g1,
                    g2,
                    m1,
                    m2,
                ));
                assert(t0.partition_facts(xs, t0.children_of(xs), g1, g2, m1, m2));
                // no old node's region changed in a root split
                assert forall|n: int|
                    t0.valid_slot(n) implies region_contains(t0.mbr(n), #[trigger] self.mbr(n)) by {
                    assert(region_contains(t0.mbr(n), t0.mbr(n)));
                    if n == xs {
                    } else if RTree::<ND>::slot_in(g1, n) || RTree::<ND>::slot_in(g2, n) {
                        assert(self.node_at(n).minimum_bounding_region == t0.node_at(
                            n,
                        ).minimum_bounding_region);
                    } else {
                        assert(self.node_at(n) == t0.node_at(n));
                    }
                }
                // nothing outside the root and its regrouped children is
                // ever written by a root split
                t0.lemma_subtree_refl(xs);
                assert forall|n: int|
                    t0.valid_slot(n) && !t0.in_subtree(n, xs) && !(t0.parent_of(n) is Some
                        && t0.in_subtree(t0.parent_slot(n), xs)) implies #[trigger] self.node_at(
                    n,
                ) == t0.node_at(n) by {
                    assert(n != xs);
                    assert(!RTree::<ND>::slot_in(g1, n) && !RTree::<ND>::slot_in(g2, n)) by {
                        if RTree::<ND>::slot_in(g1, n) {
                            let k = choose|k: int| 0 <= k < g1.len() && (#[trigger] g1[k]).slot
                                == n;
                            assert(t0.parent_of(n) == Some(index));
                            assert(t0.parent_slot(n) == xs);
                        }
                        if RTree::<ND>::slot_in(g2, n) {
                            let k = choose|k: int| 0 <= k < g2.len() && (#[trigger] g2[k]).slot
                                == n;
                            assert(t0.parent_of(n) == Some(index));
                            assert(t0.parent_slot(n) == xs);
                        }
                    }
                }
            }
        } else {
            let parent = match self.nodes.at(index).get_parent() {
                Some(p) => p,
                None => {
                    proof {
                        assert(false);
                    }
                    index
                },
            };
            let ghost ps = parent.slot as int;
            proof {
                t0.lemma_parent_facts(xs);
                assert(parent == t0.parent_of(xs).unwrap());
                assert(t0.valid_slot(ps) && parent.generation == 0);
                assert(t0.height_of(ps) == hx + 1);
                assert(ps != xs);
                assert(!RTree::<ND>::slot_in(ch, ps) && !RTree::<ND>::slot_in(g1, ps)
                    && !RTree::<ND>::slot_in(g2, ps)) by {
                    if RTree::<ND>::slot_in(ch, ps) {
                        let j = choose|j: int| 0 <= j < ch.len() && (#[trigger] ch[j]).slot == ps;
                        assert(t0.child_slot(xs, j) == ps);
                        t0.lemma_child_facts(xs, j);
                    }
                    if RTree::<ND>::slot_in(g1, ps) {
                        let k = choose|k: int| 0 <= k < g1.len() && (#[trigger] g1[k]).slot == ps;
                    }
                    if RTree::<ND>::slot_in(g2, ps) {
                        let k = choose|k: int| 0 <= k < g2.len() && (#[trigger] g2[k]).slot == ps;
                    }
                }
            }
            self.nodes.at_mut(index).set_minimum_bounding_region_unchecked(left_mbr);
            proof {
                assert(self.children_of(xs).len() == 0);
            }
            self.nodes.at_mut(index).set_children_unchecked(left_vec);
            proof {
                self.nodes.lemma_len_bound();
            }
            let right_index = self.nodes.insert(Node::new_internal_node(right_mbr, Some(parent)));
            proof {
                assert(self.node_count() == c0 + 1);
                assert forall|k: int|
                    0 <= k < g2.len() implies self.valid_index(#[trigger] g2[k]) && g2[k].slot
                    != right_index.slot by {
                    assert(t0.valid_slot(g2[k].slot as int));
                }
            }
            self.set_children_safe(right_index, right_vec);
            self.nodes.at_mut(parent).add_child_unchecked(right_index);
            self.heights = Ghost(t0.height_seq().push(hx));
            proof {
                self.nodes.lemma_len_bound();
                assert(Self::split_nonroot_shape(
                    t0,
                    *self,
                    index,
                    parent,
                    right_index,
                    g1,
                    g2,
                    m1,
                    m2,
                )) by {
                    assert(self.children_of(ps) =~= t0.children_of(ps).push(right_index));
                    assert forall|n: int| RTree::<ND>::slot_in(g2, n) implies (
                    #[trigger] self.node_at(n)).parent == Some(right_index) && self.node_at(
                        n,
                    ).children == t0.node_at(n).children && self.node_at(
                        n,
                    ).minimum_bounding_region == t0.node_at(n).minimum_bounding_region
                        && self.node_at(n).data == t0.node_at(n).data by {
                        let k = choose|k: int| 0 <= k < g2.len() && (#[trigger] g2[k]).slot == n;
                    }
                    assert forall|n: int|
                        t0.valid_slot(n) && n != xs && n != ps && !RTree::<ND>::slot_in(g2, n)
                            implies #[trigger] self.node_at(n) == t0.node_at(n) by {}
                }
                Self::lemma_split_nonroot_inv(
                    t0,
                    *self,
                    index,
                    parent,
                    right_index,
                    ch,
                    g1,
                    g2,
                    m1,
                    m2,
                );
                assert(right_index == (Index { slot: t0.node_count() as usize, generation: 0 }));
                assert(Self::split_nonroot_shape(
                    t0,
                    *self,
                    index,
                    t0.parent_of(xs).unwrap(),
                    (Index { slot: t0.node_count() as usize, generation: 0 }),
                    g1,
                    g2,
                    m1,
                    m2,
                ));
                assert(t0.partition_facts(xs, t0.children_of(xs), g1, g2, m1, m2));
                // the only region that changed is the split node's, and it
                // only tightened
                assert forall|n: int|
                    t0.valid_slot(n) implies region_contains(t0.mbr(n), #[trigger] self.mbr(n)) by {
                    assert(region_contains(t0.mbr(n), t0.mbr(n)));
                    if n == xs {
                        assert(region_contains(t0.mbr(xs), m1));
                    } else if n == ps || RTree::<ND>::slot_in(g2, n) {
                        assert(self.node_at(n).minimum_bounding_region == t0.node_at(
                            n,
                        ).minimum_bounding_region);
                    } else {
                        assert(self.node_at(n) == t0.node_at(n));
                    }
                }
                t0.lemma_subtree_refl(xs);
                assert(t0.in_subtree(ps, xs)) by {
                    let k = choose|k: int|
                        0 <= k < t0.children_of(ps).len() && #[trigger] t0.child_slot(ps, k)
                            == xs;
                    t0.lemma_child_in_subtree(ps, k);
                }
                // the step writes only the split node, its parent, and
                // the regrouped children
                assert forall|n: int|
                    t0.valid_slot(n) && !t0.in_subtree(n, xs) && !(t0.parent_of(n) is Some
                        && t0.in_subtree(t0.parent_slot(n), xs)) implies #[trigger] self.node_at(
                    n,
                ) == t0.node_at(n) by {
                    assert(n != xs);
                    assert(n != ps);
                    assert(!RTree::<ND>::slot_in(g2, n)) by {
                        if RTree::<ND>::slot_in(g2, n) {
                            let k = choose|k: int| 0 <= k < g2.len() && (#[trigger] g2[k]).slot
                                == n;
                            assert(t0.parent_of(n) == Some(index));
                            assert(t0.parent_slot(n) == xs);
                        }
                    }
                }
            }
            let ghost mid = *self;
            if self.nodes.at(parent).child_count() >= self.max_children {
                let ghost t7 = *self;
                proof {
                    assert(t7.children_of(ps).len() == t7.spec_max_children());
                    assert(t7.inv_except_overfull(ps));
                    t7.lemma_root_reaches_all(ps);
                    t7.lemma_subtree_valid(t7.root_slot(), ps);
                }
                self.split_node(parent);
                proof {
                    let tz = *self;
                    assert(tz.same_leaves_as(t7) && tz.same_shape_params(t7) && t7.node_count()
                        <= tz.node_count() && tz.mbr(tz.root_slot()) == t7.mbr(t7.root_slot()));
                    // parents at or above the split node's parent were
                    // untouched by the step
                    assert forall|x: int|
                        t0.valid_slot(x) && t0.height_of(x) >= t0.height_of(ps)
                            implies #[trigger] t7.parent_of(x) == t0.parent_of(x) by {
                        if RTree::<ND>::slot_in(g2, x) {
                            let k = choose|k: int| 0 <= k < g2.len() && (#[trigger] g2[k]).slot
                                == x;
                            assert(t0.height_of(x) == hx - 1);
                            assert(t0.height_of(ps) == hx + 1);
                        }
                        if x == xs || x == ps {
                        } else {
                            assert(!RTree::<ND>::slot_in(g2, x) ==> t7.node_at(x) == t0.node_at(
                                x,
                            ));
                        }
                    }
                    assert forall|x: int|
                        t0.valid_slot(x) implies #[trigger] t7.height_of(x) == t0.height_of(
                        x,
                    ) by {}
                    // compose the frame through the recursion: anything
                    // the deeper splits write is an ancestor of the
                    // parent, hence of the split node, or such an
                    // ancestor's child
                    assert forall|n: int|
                        t0.valid_slot(n) && !t0.in_subtree(n, xs) && !(t0.parent_of(n) is Some
                            && t0.in_subtree(t0.parent_slot(n), xs))
                            implies #[trigger] tz.node_at(n) == t0.node_at(n) by {
                        assert(t7.node_at(n) == t0.node_at(n));
                        assert(t0.valid_slot(ps));
                        if tz.node_at(n) != t7.node_at(n) {
                            assert(t7.in_subtree(n, ps) || (t7.parent_of(n) is Some
                                && t7.in_subtree(t7.parent_slot(n), ps)));
                            if t7.in_subtree(n, ps) {
                                Self::lemma_ancestor_transfer(t0, t7, n, ps);
                                t0.lemma_subtree_trans(n, ps, xs);
                                assert(false);
                            } else {
                                let pn = t7.parent_slot(n);
                                assert(t7.parent_of(n) == t0.parent_of(n));
                                Self::lemma_ancestor_transfer(t0, t7, pn, ps);
                                t0.lemma_subtree_trans(pn, ps, xs);
                                assert(false);
                            }
                        }
                    }
                    assert forall|n: int|
                        t0.valid_slot(n) implies region_contains(
                        t0.mbr(n),
                        #[trigger] tz.mbr(n),
                    ) by {
                        assert(region_contains(t0.mbr(n), t7.mbr(n)));
                        assert(region_contains(t7.mbr(n), tz.mbr(n)));
                        crate::geometry::region::lemma_contains_trans(
                            t0.mbr(n),
                            t7.mbr(n),
                            tz.mbr(n),
                        );
                    }
                    assert(tz.same_shape_params(t0));
                    assert(tz.same_leaves_as(t0)) by {
                        assert forall|n: int|
                            t0.valid_slot(n) && t0.is_leaf(n) implies tz.is_leaf(n)
                                && (#[trigger] tz.node_at(n)).minimum_bounding_region@
                                == t0.node_at(n).minimum_bounding_region@ && tz.node_at(n).data
                                == t0.node_at(n).data by {
                            assert(t7.valid_slot(n) && t7.is_leaf(n));
                        }
                        assert forall|n: int|
                            tz.valid_slot(n) && #[trigger] tz.is_leaf(n) implies t0.valid_slot(n)
                                && t0.is_leaf(n) by {
                            assert(t7.valid_slot(n) && t7.is_leaf(n));
                        }
                    }
                    assert(tz.mbr(tz.root_slot()) == t0.mbr(rs));
                }
            }
        }
    }
}

/// The selection of the second group: the children already assigned but
/// not in the first group.
pub open spec fn g2_pick(assigned: Seq<bool>, in_g1: Seq<bool>) -> Seq<bool> {
    Seq::new(assigned.len(), |k: int| assigned[k] && !in_g1[k])
}

/// An all-`false` sequence has no `true` entries.
proof fn lemma_count_true_zero(s: Seq<bool>)
    requires
        forall|k: int| 0 <= k < s.len() ==> !s[k],
    ensures
        count_true(s) == 0,
    decreases s.len(),
{
    if s.len() > 0 {
        lemma_count_true_zero(s.drop_last());
    }
}

} // verus!
