//! A point in k-dimensional space.

use vstd::prelude::*;

verus! {

/// A point: one `i64` coordinate per axis.
#[derive(Debug)]
pub struct Point {
    pub coordinates: Vec<i64>,
}

impl View for Point {
    type V = Seq<int>;

    open spec fn view(&self) -> Seq<int> {
        self.coordinates@.map(|i: int, c: i64| c as int)
    }
}

impl Point {
    /// Creates a point from its coordinates.
    pub fn new(coordinates: Vec<i64>) -> (p: Point)
        ensures
            p.coordinates@ == coordinates@,
    {
        Point { coordinates }
    }

    /// The coordinate of this point on the given axis.
    pub fn get_coordinate(&self, index: usize) -> (c: i64)
        requires
            index < self@.len(),
        ensures
            c as int == self@[index as int],
    {
        self.coordinates[index]
    }

    /// The number of axes of this point.
    pub fn get_dimension(&self) -> (d: usize)
        ensures
            d == self@.len(),
    {
        self.coordinates.len()
    }

    /// The coordinates of this point, in axis order.
    pub fn coordinate_iter(&self) -> (v: Vec<i64>)
        ensures
            v@ == self.coordinates@,
    {
        let mut v: Vec<i64> = Vec::new();
        let mut i: usize = 0;
        while i < self.coordinates.len()
            invariant
                i <= self.coordinates@.len(),
                v@ == self.coordinates@.take(i as int),
            decreases self.coordinates@.len() - i,
        {
            v.push(self.coordinates[i]);
            proof {
                assert(v@ =~= self.coordinates@.take(i + 1));
            }
            i += 1;
        }
        proof {
            assert(v@ =~= self.coordinates@);
        }
        v
    }
}

impl Clone for Point {
    /// Clones the point, coordinate for coordinate.
    fn clone(&self) -> (p: Self)
        ensures
            p.coordinates@ == self.coordinates@,
    {
        Point { coordinates: self.coordinate_iter() }
    }
}

} // verus!
