//! Tests for the geometry kernel: areas, unions, containment,
//! intersection, and the dimension-mismatch error.
//!
//! Coordinates are plain integers; tests that need fractional values
//! state them in hundredths (or tenths) of a unit, which leaves every
//! containment and intersection relation unchanged.

use spaceindex::geometry::{check_dimensions_match, Point, Region, ShapelikeError};

fn rect2(xmin: i64, ymin: i64, xmax: i64, ymax: i64) -> Region {
    Region::new(vec![(xmin, xmax), (ymin, ymax)])
}

#[test]
fn test_region_area() {
    let ll = Point::new(vec![0, 0]);
    let ur = Point::new(vec![2, 2]);

    let r = Region::from_points(&ll, &ur);
    assert_eq!(r.get_area(), 4);
}

#[test]
fn test_combine_regions() {
    // Make the region going from (0, 0) -> (2, 2), in tenths
    let b = rect2(0, 0, 20, 20);

    // Make the region going from (0.5, 0.5) -> (1.5, 3), in tenths
    let c = rect2(5, 5, 15, 30);

    let combined_region = b
        .combine_region(&c)
        .expect("Failed to combine regions `b` and `c`");

    // The combined region should go from (0, 0) -> (2, 3)
    assert_eq!(combined_region, rect2(0, 0, 20, 30));
}

#[test]
fn test_union_contains_operands() {
    let a = rect2(-3, 2, 5, 9);
    let b = rect2(4, -1, 12, 3);
    let u = a.combine_region(&b).unwrap();

    assert_eq!(u.contains_region(&a), Ok(true));
    assert_eq!(u.contains_region(&b), Ok(true));
    assert_eq!(u, rect2(-3, -1, 12, 9));
}

#[test]
fn test_union_area_bound() {
    let a = rect2(0, 0, 4, 4);
    let b = rect2(10, 10, 11, 11);
    let u = a.combine_region(&b).unwrap();

    let area_a = a.get_area();
    let area_b = b.get_area();
    let area_u = u.get_area();
    assert!(area_u >= area_a);
    assert!(area_u >= area_b);
    assert_eq!(area_a, 16);
    assert_eq!(area_b, 1);
    assert_eq!(area_u, 121);
}

#[test]
fn test_intersects_symmetric() {
    let a = rect2(0, 0, 5, 5);
    let b = rect2(5, 5, 9, 9);
    let c = rect2(6, 6, 7, 7);

    // touching borders count as intersecting
    assert_eq!(a.intersects_region(&b), Ok(true));
    assert_eq!(b.intersects_region(&a), Ok(true));
    assert_eq!(a.intersects_region(&c), Ok(false));
    assert_eq!(c.intersects_region(&a), Ok(false));
}

#[test]
fn test_union_preserves_point() {
    let a = rect2(0, 0, 2, 2);
    let b = rect2(10, 10, 12, 12);
    let p = Point::new(vec![1, 1]);

    assert_eq!(a.contains_point(&p), Ok(true));
    let u = a.combine_region(&b).unwrap();
    assert_eq!(u.contains_point(&p), Ok(true));
}

#[test]
fn test_center_contained() {
    let r = rect2(3, -7, 8, -2);
    let c = r.get_center();
    assert_eq!(c.coordinate_iter(), vec![5, -5]);
    assert_eq!(r.contains_point(&c), Ok(true));
}

#[test]
fn test_contains_point_boundaries() {
    let r = rect2(0, 0, 2, 2);
    assert_eq!(r.contains_point(&Point::new(vec![0, 0])), Ok(true));
    assert_eq!(r.contains_point(&Point::new(vec![2, 2])), Ok(true));
    assert_eq!(r.contains_point(&Point::new(vec![3, 1])), Ok(false));
    assert_eq!(r.contains_point(&Point::new(vec![-1, 1])), Ok(false));
}

#[test]
fn test_dimension_mismatch_errors() {
    let a = rect2(0, 0, 1, 1);
    let b = Region::new(vec![(0, 1)]);

    assert_eq!(
        a.contains_region(&b),
        Err(ShapelikeError::UnmatchedDimensions(2, 1))
    );
    assert_eq!(
        a.intersects_region(&b),
        Err(ShapelikeError::UnmatchedDimensions(2, 1))
    );
    assert_eq!(
        a.combine_region(&b).unwrap_err(),
        ShapelikeError::UnmatchedDimensions(2, 1)
    );
    assert_eq!(
        a.contains_point(&Point::new(vec![0])),
        Err(ShapelikeError::UnmatchedDimensions(2, 1))
    );

    assert_eq!(check_dimensions_match(3, 3), Ok(()));
    assert_eq!(
        check_dimensions_match(3, 2),
        Err(ShapelikeError::UnmatchedDimensions(3, 2))
    );
}

#[test]
fn test_error_variants_distinct() {
    assert_ne!(
        ShapelikeError::UnsupportedOperation,
        ShapelikeError::UnmatchedDimensions(2, 2)
    );
    assert_eq!(
        ShapelikeError::UnsupportedOperation,
        ShapelikeError::UnsupportedOperation
    );
}

#[test]
fn test_infinite_region_contains_everything() {
    let inf = Region::infinite(2);
    assert_eq!(inf.get_dimension(), 2);
    assert_eq!(inf.contains_region(&rect2(-1000, -1000, 1000, 1000)), Ok(true));
    assert_eq!(inf.contains_point(&Point::new(vec![i64::MIN, i64::MAX])), Ok(true));
    // the area saturates at the largest representable value
    assert_eq!(inf.get_area(), u64::MAX);
}
