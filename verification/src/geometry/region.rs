//! Axis-aligned rectangular regions and their operations.
//!
//! A region is an ordered sequence of axis intervals `(low, high)` with
//! `low <= high`.  The mathematical model of a region is a sequence of
//! integer pairs; containment, intersection, union, area and centre are
//! all specified over that model.
//!
//! Areas are products of side lengths and can exceed any machine integer,
//! so the executable [`Region::get_area`] saturates at `u64::MAX`; its
//! contract states that exactly, via [`saturated_area`].  The tree's
//! heuristics compare saturated areas; the structural guarantees of the
//! tree do not depend on which side such a comparison picks.

use vstd::arithmetic::div_mod::lemma_fundamental_div_mod;
use vstd::arithmetic::div_mod::lemma_mod_division_less_than_divisor;
use vstd::arithmetic::mul::lemma_mul_inequality;
use vstd::prelude::*;

use crate::geometry::point::Point;
use crate::geometry::ShapelikeError;

verus! {

/// An axis-aligned region: one `(low, high)` interval per axis.
#[derive(Debug)]
pub struct Region {
    pub coordinates: Vec<(i64, i64)>,
}

impl View for Region {
    type V = Seq<(int, int)>;

    open spec fn view(&self) -> Seq<(int, int)> {
        self.coordinates@.map(|i: int, c: (i64, i64)| (c.0 as int, c.1 as int))
    }
}

/// A region is well formed when every axis interval has `low <= high`.
pub open spec fn region_wf(r: Seq<(int, int)>) -> bool {
    forall|i: int| 0 <= i < r.len() ==> #[trigger] r[i].0 <= r[i].1
}

/// `a` contains `b`: on every axis, `a`'s interval encloses `b`'s.
pub open spec fn region_contains(a: Seq<(int, int)>, b: Seq<(int, int)>) -> bool {
    &&& a.len() == b.len()
    &&& forall|i: int| 0 <= i < a.len() ==> #[trigger] a[i].0 <= b[i].0 && b[i].1 <= a[i].1
}

/// `a` intersects `b`: the closed regions share at least one point,
/// i.e. no axis separates them.  Touching borders count.
pub open spec fn region_intersects(a: Seq<(int, int)>, b: Seq<(int, int)>) -> bool {
    &&& a.len() == b.len()
    &&& forall|i: int| 0 <= i < a.len() ==> #[trigger] a[i].0 <= b[i].1 && b[i].0 <= a[i].1
}

/// The point `p` lies inside `r` (borders included).
pub open spec fn region_contains_point(r: Seq<(int, int)>, p: Seq<int>) -> bool {
    &&& r.len() == p.len()
    &&& forall|i: int| 0 <= i < r.len() ==> #[trigger] r[i].0 <= p[i] && p[i] <= r[i].1
}

/// The smallest region enclosing both `a` and `b`: axis-wise
/// `(min(low, low), max(high, high))`.
pub open spec fn region_union(a: Seq<(int, int)>, b: Seq<(int, int)>) -> Seq<(int, int)> {
    Seq::new(
        a.len(),
        |i: int|
            (
                if a[i].0 <= b[i].0 {
                    a[i].0
                } else {
                    b[i].0
                },
                if a[i].1 >= b[i].1 {
                    a[i].1
                } else {
                    b[i].1
                },
            ),
    )
}

/// The side length of `r` on axis `i`.
pub open spec fn region_side(r: Seq<(int, int)>, i: int) -> int {
    r[i].1 - r[i].0
}

/// The product of the side lengths of the first `n` axes of `r`.
pub open spec fn region_area_prefix(r: Seq<(int, int)>, n: int) -> int
    decreases n,
{
    if n <= 0 {
        1
    } else {
        region_area_prefix(r, n - 1) * region_side(r, n - 1)
    }
}

/// The exact area of `r`: the product of all its side lengths.
/// Zero when any side is degenerate.
pub open spec fn region_area(r: Seq<(int, int)>) -> int {
    region_area_prefix(r, r.len() as int)
}

/// The area of `r` as the executable code computes it: exact up to
/// `u64::MAX`, saturated beyond.
pub open spec fn saturated_area(r: Seq<(int, int)>) -> int {
    if region_area(r) > u64::MAX as int {
        u64::MAX as int
    } else {
        region_area(r)
    }
}

/// How much the (saturated) area of `c` grows when `c` is enlarged to
/// also cover `r`.  This is the quantity the tree's insertion and split
/// heuristics minimise.
pub open spec fn region_enlargement(c: Seq<(int, int)>, r: Seq<(int, int)>) -> int {
    saturated_area(region_union(c, r)) - saturated_area(c)
}

/// The centre of `r`: the axis-wise midpoint, rounded toward the low end.
pub open spec fn region_center(r: Seq<(int, int)>) -> Seq<int> {
    Seq::new(r.len(), |i: int| r[i].0 + (r[i].1 - r[i].0) / 2)
}

impl Region {
    /// Creates a region from its axis intervals.
    pub fn new(coordinates: Vec<(i64, i64)>) -> (r: Region)
        requires
            forall|i: int|
                0 <= i < coordinates@.len() ==> #[trigger] coordinates@[i].0 <= coordinates@[i].1,
        ensures
            r.coordinates@ == coordinates@,
            region_wf(r@),
    {
        let r = Region { coordinates };
        proof {
            assert(forall|i: int| 0 <= i < r@.len() ==> #[trigger] r@[i].0 <= r@[i].1);
        }
        r
    }

    /// The region spanning the whole representable range on every axis.
    /// Used as the initial root region, so that "parent contains child"
    /// holds trivially before the first entry is inserted.
    pub fn infinite(dimension: usize) -> (r: Region)
        ensures
            r@.len() == dimension,
            forall|i: int|
                0 <= i < dimension ==> #[trigger] r@[i] == (i64::MIN as int, i64::MAX as int),
            region_wf(r@),
    {
        let mut coordinates: Vec<(i64, i64)> = Vec::new();
        let mut i: usize = 0;
        while i < dimension
            invariant
                i <= dimension,
                coordinates@.len() == i,
                forall|j: int|
                    0 <= j < i ==> #[trigger] coordinates@[j] == (i64::MIN, i64::MAX),
            decreases dimension - i,
        {
            coordinates.push((i64::MIN, i64::MAX));
            i += 1;
        }
        Region { coordinates }
    }

    /// The axis intervals of this region, in axis order.
    pub fn coordinates_iter(&self) -> (v: Vec<(i64, i64)>)
        ensures
            v@ == self.coordinates@,
    {
        let mut v: Vec<(i64, i64)> = Vec::new();
        let mut i: usize = 0;
        while i < self.coordinates.len()
            invariant
                i <= self.coordinates@.len(),
                v@ == self.coordinates@.take(i as int),
            decreases self.coordinates@.len() - i,
        {
            v.push(self.coordinates[i]);
            proof {
                assert(v@ =~= self.coordinates@.take(i + 1));
            }
            i += 1;
        }
        proof {
            assert(v@ =~= self.coordinates@);
        }
        v
    }

    /// Builds the region whose low corner is `a` and high corner is `b`.
    pub fn from_points(a: &Point, b: &Point) -> (r: Region)
        requires
            a@.len() == b@.len(),
            forall|i: int| 0 <= i < a@.len() ==> #[trigger] a@[i] <= b@[i],
        ensures
            r@.len() == a@.len(),
            forall|i: int| 0 <= i < a@.len() ==> #[trigger] r@[i] == (a@[i], b@[i]),
            region_wf(r@),
    {
        let mut coordinates: Vec<(i64, i64)> = Vec::new();
        let mut i: usize = 0;
        let n = a.coordinates.len();
        while i < n
            invariant
                i <= n,
                n == a@.len() == b@.len(),
                a@.len() == a.coordinates@.len(),
                b@.len() == b.coordinates@.len(),
                coordinates@.len() == i,
                forall|j: int|
                    0 <= j < i ==> (#[trigger] coordinates@[j]).0 == a@[j] && coordinates@[j].1
                        == b@[j],
            decreases n - i,
        {
            coordinates.push((a.coordinates[i], b.coordinates[i]));
            i += 1;
        }
        Region { coordinates }
    }

    /// The number of axes of this region.
    pub fn get_dimension(&self) -> (d: usize)
        ensures
            d == self@.len(),
    {
        self.coordinates.len()
    }

    /// Whether this region contains `other` on every axis.
    /// Fails when the dimensions differ.
    pub fn contains_region(&self, other: &Region) -> (r: Result<bool, ShapelikeError>)
        ensures
            self@.len() == other@.len() ==> r == Ok::<bool, ShapelikeError>(
                region_contains(self@, other@),
            ),
            self@.len() != other@.len() ==> r == Err::<bool, ShapelikeError>(
                ShapelikeError::UnmatchedDimensions(self.coordinates.len(), other.coordinates.len()),
            ),
    {
        let n = self.coordinates.len();
        if n != other.coordinates.len() {
            return Err(ShapelikeError::UnmatchedDimensions(n, other.coordinates.len()));
        }
        let mut i: usize = 0;
        while i < n
            invariant
                i <= n,
                n == self@.len() == other@.len(),
                self@.len() == self.coordinates@.len(),
                other@.len() == other.coordinates@.len(),
                forall|j: int|
                    0 <= j < i ==> #[trigger] self@[j].0 <= other@[j].0 && other@[j].1
                        <= self@[j].1,
            decreases n - i,
        {
            let (s_low, s_high) = self.coordinates[i];
            let (o_low, o_high) = other.coordinates[i];
            if s_low > o_low || s_high < o_high {
                proof {
                    assert(!(self@[i as int].0 <= other@[i as int].0 && other@[i as int].1
                        <= self@[i as int].1));
                }
                return Ok(false);
            }
            i += 1;
        }
        Ok(true)
    }

    /// Whether this region intersects `other` (touching borders count).
    /// Fails when the dimensions differ.
    pub fn intersects_region(&self, other: &Region) -> (r: Result<bool, ShapelikeError>)
        ensures
            self@.len() == other@.len() ==> r == Ok::<bool, ShapelikeError>(
                region_intersects(self@, other@),
            ),
            self@.len() != other@.len() ==> r == Err::<bool, ShapelikeError>(
                ShapelikeError::UnmatchedDimensions(self.coordinates.len(), other.coordinates.len()),
            ),
    {
        let n = self.coordinates.len();
        if n != other.coordinates.len() {
            return Err(ShapelikeError::UnmatchedDimensions(n, other.coordinates.len()));
        }
        let mut i: usize = 0;
        while i < n
            invariant
                i <= n,
                n == self@.len() == other@.len(),
                self@.len() == self.coordinates@.len(),
                other@.len() == other.coordinates@.len(),
                forall|j: int|
                    0 <= j < i ==> #[trigger] self@[j].0 <= other@[j].1 && other@[j].0
                        <= self@[j].1,
            decreases n - i,
        {
            let (s_low, s_high) = self.coordinates[i];
            let (o_low, o_high) = other.coordinates[i];
            if s_low > o_high || s_high < o_low {
                proof {
                    assert(!(self@[i as int].0 <= other@[i as int].1 && other@[i as int].0
                        <= self@[i as int].1));
                }
                return Ok(false);
            }
            i += 1;
        }
        Ok(true)
    }

    /// Whether this region contains the point `point` (borders included).
    /// Fails when the dimensions differ.
    pub fn contains_point(&self, point: &Point) -> (r: Result<bool, ShapelikeError>)
        ensures
            self@.len() == point@.len() ==> r == Ok::<bool, ShapelikeError>(
                region_contains_point(self@, point@),
            ),
            self@.len() != point@.len() ==> r == Err::<bool, ShapelikeError>(
                ShapelikeError::UnmatchedDimensions(self.coordinates.len(), point.coordinates.len()),
            ),
    {
        let n = self.coordinates.len();
        if n != point.coordinates.len() {
            return Err(ShapelikeError::UnmatchedDimensions(n, point.coordinates.len()));
        }
        let mut i: usize = 0;
        while i < n
            invariant
                i <= n,
                n == self@.len() == point@.len(),
                self@.len() == self.coordinates@.len(),
                point@.len() == point.coordinates@.len(),
                forall|j: int|
                    0 <= j < i ==> #[trigger] self@[j].0 <= point@[j] && point@[j] <= self@[j].1,
            decreases n - i,
        {
            let (low, high) = self.coordinates[i];
            let c = point.coordinates[i];
            if low > c || high < c {
                proof {
                    assert(!(self@[i as int].0 <= point@[i as int] && point@[i as int]
                        <= self@[i as int].1));
                }
                return Ok(false);
            }
            i += 1;
        }
        Ok(true)
    }

    /// The smallest region containing both this region and `other`.
    /// Fails when the dimensions differ.
    pub fn combine_region(&self, other: &Region) -> (r: Result<Region, ShapelikeError>)
        ensures
            self@.len() == other@.len() ==> match r {
                Ok(u) => u@ == region_union(self@, other@),
                Err(_) => false,
            },
            self@.len() != other@.len() ==> r == Err::<Region, ShapelikeError>(
                ShapelikeError::UnmatchedDimensions(self.coordinates.len(), other.coordinates.len()),
            ),
    {
        let n = self.coordinates.len();
        if n != other.coordinates.len() {
            return Err(ShapelikeError::UnmatchedDimensions(n, other.coordinates.len()));
        }
        let mut coordinates: Vec<(i64, i64)> = Vec::new();
        let mut i: usize = 0;
        while i < n
            invariant
                i <= n,
                n == self@.len() == other@.len(),
                self@.len() == self.coordinates@.len(),
                other@.len() == other.coordinates@.len(),
                coordinates@.len() == i,
                forall|j: int|
                    0 <= j < i ==> ((#[trigger] coordinates@[j]).0 as int, coordinates@[j].1 as int)
                        == region_union(self@, other@)[j],
            decreases n - i,
        {
            let (s_low, s_high) = self.coordinates[i];
            let (o_low, o_high) = other.coordinates[i];
            let low = if s_low <= o_low {
                s_low
            } else {
                o_low
            };
            let high = if s_high >= o_high {
                s_high
            } else {
                o_high
            };
            coordinates.push((low, high));
            i += 1;
        }
        let u = Region { coordinates };
        proof {
            assert(u@ =~= region_union(self@, other@));
        }
        Ok(u)
    }

    /// Enlarges this region in place to also cover `other`.
    /// Fails, leaving this region unchanged, when the dimensions differ.
    pub fn combine_region_in_place(&mut self, other: &Region) -> (r: Result<(), ShapelikeError>)
        ensures
            old(self)@.len() == other@.len() ==> r == Ok::<(), ShapelikeError>(())
                && final(self)@ == region_union(old(self)@, other@),
            old(self)@.len() != other@.len() ==> r == Err::<(), ShapelikeError>(
                ShapelikeError::UnmatchedDimensions(
                    old(self).coordinates.len(),
                    other.coordinates.len(),
                ),
            ) && *final(self) == *old(self),
    {
        if self.coordinates.len() != other.coordinates.len() {
            return Err(
                ShapelikeError::UnmatchedDimensions(
                    self.coordinates.len(),
                    other.coordinates.len(),
                ),
            );
        }
        let n = self.coordinates.len();
        let mut i: usize = 0;
        while i < n
            invariant
                i <= n,
                n == self@.len() == other@.len(),
                self@.len() == self.coordinates@.len(),
                other@.len() == other.coordinates@.len(),
                self@.len() == old(self)@.len(),
                forall|j: int| i <= j < n ==> #[trigger] self@[j] == old(self)@[j],
                forall|j: int| 0 <= j < i ==> #[trigger] self@[j] == region_union(
                    old(self)@,
                    other@,
                )[j],
            decreases n - i,
        {
            let (s_low, s_high) = self.coordinates[i];
            let (o_low, o_high) = other.coordinates[i];
            let low = if s_low <= o_low {
                s_low
            } else {
                o_low
            };
            let high = if s_high >= o_high {
                s_high
            } else {
                o_high
            };
            proof {
                assert(self@[i as int] == old(self)@[i as int]);
            }
            let ghost prev = self@;
            self.coordinates[i] = (low, high);
            proof {
                assert(self@ =~= prev.update(i as int, (low as int, high as int)));
                assert(self@[i as int] == region_union(old(self)@, other@)[i as int]);
            }
            i += 1;
        }
        proof {
            assert(self@ =~= region_union(old(self)@, other@));
        }
        Ok(())
    }

    /// The area of this region: the product of its side lengths,
    /// saturating at `u64::MAX`.
    pub fn get_area(&self) -> (area: u64)
        requires
            region_wf(self@),
        ensures
            area as int == saturated_area(self@),
    {
        let n = self.coordinates.len();
        let mut acc: u64 = 1;
        let mut i: usize = 0;
        while i < n
            invariant
                i <= n,
                n == self@.len() == self.coordinates@.len(),
                region_wf(self@),
                acc as int == (if region_area_prefix(self@, i as int) > u64::MAX as int {
                    u64::MAX as int
                } else {
                    region_area_prefix(self@, i as int)
                }),
            decreases n - i,
        {
            let (low, high) = self.coordinates[i];
            let wide: i128 = high as i128 - low as i128;
            let side: u64 = wide as u64;
            proof {
                assert(side as int == region_side(self@, i as int));
                lemma_saturating_mul_step(region_area_prefix(self@, i as int), side as int);
            }
            acc = if side == 0 {
                0
            } else if acc > u64::MAX / side {
                u64::MAX
            } else {
                acc * side
            };
            i += 1;
        }
        acc
    }

    /// The centre of this region: the axis-wise midpoint, rounded toward
    /// the low end.  The centre of a well-formed region always lies
    /// inside it (see [`lemma_center_contained`]).
    pub fn get_center(&self) -> (c: Point)
        requires
            region_wf(self@),
        ensures
            c@ == region_center(self@),
    {
        let n = self.coordinates.len();
        let mut coordinates: Vec<i64> = Vec::new();
        let mut i: usize = 0;
        while i < n
            invariant
                i <= n,
                n == self@.len() == self.coordinates@.len(),
                region_wf(self@),
                coordinates@.len() == i,
                forall|j: int|
                    0 <= j < i ==> #[trigger] coordinates@[j] as int == region_center(self@)[j],
            decreases n - i,
        {
            let (low, high) = self.coordinates[i];
            proof {
                assert(self@[i as int].0 <= self@[i as int].1);
            }
            let wide: i128 = high as i128 - low as i128;
            let mid: i128 = low as i128 + wide / 2;
            proof {
                assert(0 <= wide / 2 <= wide);
                assert(low as i128 <= mid <= high as i128);
                assert(mid as i64 as int == region_center(self@)[i as int]);
            }
            coordinates.push(mid as i64);
            i += 1;
        }
        let c = Point { coordinates };
        proof {
            assert(c@ =~= region_center(self@));
        }
        c
    }

    /// The minimum bounding region of a region is the region itself.
    pub fn get_min_bounding_region(&self) -> (r: Region)
        ensures
            r@ == self@,
    {
        self.clone()
    }
}

impl Clone for Region {
    /// Clones the region, axis for axis.
    fn clone(&self) -> (r: Self)
        ensures
            r.coordinates@ == self.coordinates@,
            r@ == self@,
    {
        Region { coordinates: self.coordinates_iter() }
    }
}

impl PartialEq for Region {
    /// Two regions are equal when they have the same axis intervals.
    fn eq(&self, other: &Region) -> (r: bool)
        ensures
            r == (self.coordinates@ == other.coordinates@),
    {
        let n = self.coordinates.len();
        if n != other.coordinates.len() {
            proof {
                assert(self.coordinates@ != other.coordinates@);
            }
            return false;
        }
        let mut i: usize = 0;
        while i < n
            invariant
                i <= n,
                n == self.coordinates@.len() == other.coordinates@.len(),
                forall|j: int|
                    0 <= j < i ==> #[trigger] self.coordinates@[j] == other.coordinates@[j],
            decreases n - i,
        {
            let (s_low, s_high) = self.coordinates[i];
            let (o_low, o_high) = other.coordinates[i];
            if s_low != o_low || s_high != o_high {
                proof {
                    assert(self.coordinates@[i as int] != other.coordinates@[i as int]);
                }
                return false;
            }
            i += 1;
        }
        proof {
            assert(self.coordinates@ =~= other.coordinates@);
        }
        true
    }
}

impl vstd::std_specs::cmp::PartialEqSpecImpl for Region {
    open spec fn obeys_eq_spec() -> bool {
        true
    }

    open spec fn eq_spec(&self, other: &Region) -> bool {
        self.coordinates@ == other.coordinates@
    }
}

/// The union of two regions contains each of them.
///
/// Law: `contains_rect(union(a, b), a)` and `contains_rect(union(a, b), b)`.
pub proof fn lemma_union_contains_operands(a: Seq<(int, int)>, b: Seq<(int, int)>)
    requires
        a.len() == b.len(),
    ensures
        region_contains(region_union(a, b), a),
        region_contains(region_union(a, b), b),
{
}

/// The union is the least region containing both operands: any region
/// containing `a` and `b` also contains `union(a, b)`.
pub proof fn lemma_union_least(a: Seq<(int, int)>, b: Seq<(int, int)>, c: Seq<(int, int)>)
    requires
        a.len() == b.len(),
        region_contains(c, a),
        region_contains(c, b),
    ensures
        region_contains(c, region_union(a, b)),
{
}

/// Region containment is transitive.
pub proof fn lemma_contains_trans(a: Seq<(int, int)>, b: Seq<(int, int)>, c: Seq<(int, int)>)
    requires
        region_contains(a, b),
        region_contains(b, c),
    ensures
        region_contains(a, c),
{
}

/// The union of a well-formed region with an equal-dimension region is
/// well formed.
pub proof fn lemma_union_wf(a: Seq<(int, int)>, b: Seq<(int, int)>)
    requires
        a.len() == b.len(),
        region_wf(a),
    ensures
        region_wf(region_union(a, b)),
{
    assert forall|i: int| 0 <= i < region_union(a, b).len() implies #[trigger] region_union(a, b)[i].0
        <= region_union(a, b)[i].1 by {
        assert(a[i].0 <= a[i].1);
    }
}

/// Intersection is symmetric.
///
/// Law: `intersects_rect(a, b) = intersects_rect(b, a)`.
pub proof fn lemma_intersects_symmetric(a: Seq<(int, int)>, b: Seq<(int, int)>)
    ensures
        region_intersects(a, b) == region_intersects(b, a),
{
    if region_intersects(a, b) {
        assert forall|i: int| 0 <= i < b.len() implies b[i].0 <= a[i].1 && a[i].0 <= b[i].1 by {
            assert(a[i].0 <= b[i].1 && b[i].0 <= a[i].1);
        }
    }
    if region_intersects(b, a) {
        assert forall|i: int| 0 <= i < a.len() implies a[i].0 <= b[i].1 && b[i].0 <= a[i].1 by {
            assert(b[i].0 <= a[i].1 && a[i].0 <= b[i].1);
        }
    }
}

/// Growing a region keeps every point it already contained.
///
/// Law: `contains_point(union(a, b), p)` whenever `contains_point(a, p)`.
pub proof fn lemma_union_preserves_point(a: Seq<(int, int)>, b: Seq<(int, int)>, p: Seq<int>)
    requires
        a.len() == b.len(),
        region_contains_point(a, p),
    ensures
        region_contains_point(region_union(a, b), p),
{
}

/// A point inside an inner region is inside any region containing it.
pub proof fn lemma_contains_point_monotone(
    outer: Seq<(int, int)>,
    inner: Seq<(int, int)>,
    p: Seq<int>,
)
    requires
        region_contains(outer, inner),
        region_contains_point(inner, p),
    ensures
        region_contains_point(outer, p),
{
}

/// A region intersecting an inner region intersects any region
/// containing it.
pub proof fn lemma_intersects_monotone(
    outer: Seq<(int, int)>,
    inner: Seq<(int, int)>,
    q: Seq<(int, int)>,
)
    requires
        region_contains(outer, inner),
        region_intersects(inner, q),
    ensures
        region_intersects(outer, q),
{
}

/// The area prefix of a well-formed region is non-negative.
pub proof fn lemma_area_prefix_nonneg(r: Seq<(int, int)>, n: int)
    requires
        region_wf(r),
        n <= r.len(),
    ensures
        region_area_prefix(r, n) >= 0,
    decreases n,
{
    if n > 0 {
        lemma_area_prefix_nonneg(r, n - 1);
        assert(region_side(r, n - 1) >= 0);
        assert(region_area_prefix(r, n - 1) * region_side(r, n - 1) >= 0) by (nonlinear_arith)
            requires
                region_area_prefix(r, n - 1) >= 0,
                region_side(r, n - 1) >= 0,
        ;
    }
}

/// The area of a well-formed region is non-negative.
pub proof fn lemma_area_nonneg(r: Seq<(int, int)>)
    requires
        region_wf(r),
    ensures
        region_area(r) >= 0,
{
    lemma_area_prefix_nonneg(r, r.len() as int);
}

/// Axis-wise: a containing region has sides at least as long, so each
/// area prefix is at least as large.
pub proof fn lemma_area_prefix_monotone(a: Seq<(int, int)>, b: Seq<(int, int)>, n: int)
    requires
        region_wf(a),
        region_contains(b, a),
        n <= a.len(),
    ensures
        0 <= region_area_prefix(a, n),
        region_area_prefix(a, n) <= region_area_prefix(b, n),
    decreases n,
{
    if n <= 0 {
    } else {
        lemma_area_prefix_monotone(a, b, n - 1);
        assert(0 <= region_side(a, n - 1) <= region_side(b, n - 1));
        assert(region_area_prefix(a, n - 1) * region_side(a, n - 1) <= region_area_prefix(b, n - 1)
            * region_side(b, n - 1) && 0 <= region_area_prefix(a, n - 1) * region_side(a, n - 1))
            by (nonlinear_arith)
            requires
                0 <= region_area_prefix(a, n - 1),
                region_area_prefix(a, n - 1) <= region_area_prefix(b, n - 1),
                0 <= region_side(a, n - 1),
                region_side(a, n - 1) <= region_side(b, n - 1),
        ;
    }
}

/// A region containing a well-formed region has at least its area.
pub proof fn lemma_area_monotone(a: Seq<(int, int)>, b: Seq<(int, int)>)
    requires
        region_wf(a),
        region_contains(b, a),
    ensures
        0 <= region_area(a),
        region_area(a) <= region_area(b),
        0 <= saturated_area(a),
        saturated_area(a) <= saturated_area(b),
{
    lemma_area_prefix_monotone(a, b, a.len() as int);
}

/// The union of two regions has at least the area of each.
///
/// Law: `area(union(a, b)) >= max(area(a), area(b))`.
pub proof fn lemma_union_area_bound(a: Seq<(int, int)>, b: Seq<(int, int)>)
    requires
        a.len() == b.len(),
        region_wf(a),
        region_wf(b),
    ensures
        region_area(region_union(a, b)) >= region_area(a),
        region_area(region_union(a, b)) >= region_area(b),
        region_enlargement(a, b) >= 0,
{
    lemma_union_contains_operands(a, b);
    lemma_area_monotone(a, region_union(a, b));
    lemma_area_monotone(b, region_union(a, b));
}

/// A region already containing `b` absorbs it without change — so a
/// bound of the form "within the union with `b`" forbids any growth of
/// regions that already cover `b`.
pub proof fn lemma_union_of_contained(a: Seq<(int, int)>, b: Seq<(int, int)>)
    requires
        region_contains(a, b),
    ensures
        region_union(a, b) == a,
{
    assert(region_union(a, b) =~= a);
}

/// Absorbing the same region a second time changes nothing.
pub proof fn lemma_union_absorb(a: Seq<(int, int)>, b: Seq<(int, int)>)
    requires
        a.len() == b.len(),
    ensures
        region_union(region_union(a, b), b) == region_union(a, b),
{
    assert(region_union(region_union(a, b), b) =~= region_union(a, b));
}

/// The centre of a well-formed region lies inside it.
pub proof fn lemma_center_contained(r: Seq<(int, int)>)
    requires
        region_wf(r),
    ensures
        region_contains_point(r, region_center(r)),
{
    assert forall|i: int| 0 <= i < r.len() implies #[trigger] r[i].0 <= region_center(r)[i]
        && region_center(r)[i] <= r[i].1 by {
        assert(0 <= (r[i].1 - r[i].0) / 2 <= r[i].1 - r[i].0);
    }
}

/// Coverage of an entry by the lookups: a well-formed region contains
/// its own centre and intersects itself.  Together with the lookups'
/// completeness — every leaf whose region satisfies the predicate is
/// returned — a point lookup at the centre of an inserted rectangle,
/// and an intersection lookup with the rectangle itself, both return
/// that entry.
pub proof fn lemma_entry_coverage(r: Seq<(int, int)>)
    requires
        region_wf(r),
    ensures
        region_contains_point(r, region_center(r)),
        region_intersects(r, r),
{
    lemma_center_contained(r);
}

/// Relates one saturating multiplication step of the executable area
/// computation to the saturated mathematical product.
proof fn lemma_saturating_mul_step(p: int, s: int)
    requires
        p >= 0,
        0 <= s <= u64::MAX as int,
    ensures
        (if p * s > u64::MAX as int {
            u64::MAX as int
        } else {
            p * s
        }) == (if s == 0 {
            0
        } else if (if p > u64::MAX as int {
            u64::MAX as int
        } else {
            p
        }) > u64::MAX as int / s {
            u64::MAX as int
        } else {
            (if p > u64::MAX as int {
                u64::MAX as int
            } else {
                p
            }) * s
        }),
{
    let m = u64::MAX as int;
    if s == 0 {
        assert(p * s == 0) by (nonlinear_arith)
            requires
                s == 0,
        ;
    } else {
        lemma_fundamental_div_mod(m, s);
        lemma_mod_division_less_than_divisor(m, s);
        let q = m / s;
        assert(q * s == s * q) by (nonlinear_arith);
        assert(q * s <= m);
        if p <= m {
            if p <= q {
                lemma_mul_inequality(p, q, s);
                assert(p * s <= q * s);
            } else {
                lemma_mul_inequality(q + 1, p, s);
                assert((q + 1) * s <= p * s);
                assert((q + 1) * s == q * s + s) by (nonlinear_arith);
                assert(m % s < s);
                assert(p * s > m);
            }
        } else {
            // p itself exceeds the cap, so both sides saturate.
            assert(p * s >= p * 1) by (nonlinear_arith)
                requires
                    p >= 0,
                    s >= 1,
            ;
            if s == 1 {
                assert(m / 1 == m);
                assert(p * 1 == p) by (nonlinear_arith);
                assert(m * s == m) by (nonlinear_arith)
                    requires
                        s == 1,
                ;
            } else {
                lemma_mul_inequality(2, s, q);
                assert(m / s < m) by {
                    lemma_fundamental_div_mod(m, s);
                    assert(m == q * s + m % s);
                    assert(q * s >= q * 2) by (nonlinear_arith)
                        requires
                            s >= 2,
                            q >= 0,
                    ;
                }
            }
        }
    }
}

} // verus!
