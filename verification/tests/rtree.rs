//! Tests for the tree: insertion, splitting, the three lookups, the
//! consistency validator, and the accessors.
//!
//! Coordinates are plain integers; tests that need fractional values
//! state them in tenths or hundredths of a unit, which leaves every
//! containment and intersection relation unchanged.

use rand::Rng;

use spaceindex::geometry::{Point, Region, ShapelikeError};
use spaceindex::rtree::arena::Index;
use spaceindex::rtree::rendering::TreeRenderOptions;
use spaceindex::rtree::RTree;

fn rect2(xmin: i64, ymin: i64, xmax: i64, ymax: i64) -> Region {
    Region::new(vec![(xmin, xmax), (ymin, ymax)])
}

fn point2(x: i64, y: i64) -> Point {
    Point::new(vec![x, y])
}

/// The payloads behind a set of leaf handles, sorted.
fn payloads(tree: &RTree<char>, handles: Vec<Index>) -> Vec<char> {
    let mut out: Vec<char> = handles
        .into_iter()
        .map(|h| *tree.get_node(h).unwrap().get_data().unwrap())
        .collect();
    out.sort();
    out
}

#[test]
fn test_rtree_insert() {
    let mut tree = RTree::new(2);

    // insert 50 random positions
    let mut rng = rand::thread_rng();

    for _ in 0..50 {
        let xmin = rng.gen_range(0..50_000i64);
        let ymin = rng.gen_range(0..50_000i64);
        let height = rng.gen_range(0..50_000i64);
        let width = rng.gen_range(0..50_000i64);

        let r = rect2(xmin, ymin, xmin + width, ymin + height);
        tree.insert(r, 11).unwrap();
    }

    assert!(tree.validate_consistency());
}

#[test]
fn test_point_lookup_pairs() {
    // coordinates in tenths: A = ((0,0),(2,2)), B = ((1,0),(3,3))
    let mut tree = RTree::new(2);
    tree.insert(rect2(0, 0, 20, 20), 'A').unwrap();
    tree.insert(rect2(10, 0, 30, 30), 'B').unwrap();

    assert_eq!(payloads(&tree, tree.point_lookup(&point2(10, 10)).unwrap()), vec!['A', 'B']);
    assert_eq!(payloads(&tree, tree.point_lookup(&point2(-10, 0)).unwrap()), Vec::<char>::new());
    assert_eq!(payloads(&tree, tree.point_lookup(&point2(5, 5)).unwrap()), vec!['A']);
    assert_eq!(payloads(&tree, tree.point_lookup(&point2(20, 20)).unwrap()), vec!['A', 'B']);
    assert_eq!(payloads(&tree, tree.point_lookup(&point2(25, 25)).unwrap()), vec!['B']);
    assert!(tree.validate_consistency());
}

#[test]
fn test_region_intersection_lookup_pairs() {
    // coordinates in tenths: A = ((0,0),(5,5)), B = ((-1,1),(1,3))
    let mut tree = RTree::new(2);
    tree.insert(rect2(0, 0, 50, 50), 'A').unwrap();
    tree.insert(rect2(-10, 10, 10, 30), 'B').unwrap();

    assert_eq!(
        payloads(&tree, tree.region_intersection_lookup(&rect2(-30, 0, -20, 20)).unwrap()),
        Vec::<char>::new()
    );
    assert_eq!(
        payloads(&tree, tree.region_intersection_lookup(&rect2(-30, 0, -5, 40)).unwrap()),
        vec!['B']
    );
    assert_eq!(
        payloads(&tree, tree.region_intersection_lookup(&rect2(-20, 15, 80, 15)).unwrap()),
        vec!['A', 'B']
    );
    assert_eq!(
        payloads(&tree, tree.region_intersection_lookup(&rect2(30, 20, 40, 40)).unwrap()),
        vec!['A']
    );
    assert!(tree.validate_consistency());
}

#[test]
fn test_region_containment_lookup_pairs() {
    // coordinates in hundredths: A = ((0,0),(2,2)), B = ((1,0),(3,3))
    let mut tree = RTree::new(2);
    tree.insert(rect2(0, 0, 200, 200), 'A').unwrap();
    tree.insert(rect2(100, 0, 300, 300), 'B').unwrap();

    assert_eq!(
        payloads(&tree, tree.region_containment_lookup(&rect2(125, 100, 175, 175)).unwrap()),
        vec!['A', 'B']
    );
    assert_eq!(
        payloads(&tree, tree.region_containment_lookup(&rect2(-50, -50, 50, 50)).unwrap()),
        Vec::<char>::new()
    );
    assert_eq!(
        payloads(&tree, tree.region_containment_lookup(&rect2(0, 50, 75, 199)).unwrap()),
        vec!['A']
    );
    // the two names of the containment lookup agree
    assert_eq!(
        payloads(&tree, tree.region_lookup(&rect2(0, 50, 75, 199)).unwrap()),
        vec!['A']
    );
    assert!(tree.validate_consistency());
}

#[test]
fn test_nine_identical_entries_split() {
    // nine identical entries ((0,0),(1,1)) in halves, payloads 0..8
    let mut tree = RTree::new(2);
    for payload in 0..9u32 {
        tree.insert(rect2(0, 0, 2, 2), payload).unwrap();
        assert!(tree.validate_consistency());
    }

    // a node reached the maximum fanout, so a split must have occurred:
    // the root now has exactly the two internal nodes of the split
    let root = tree.root_node();
    assert_eq!(root.child_count(), 2);
    for child in tree.child_iter(tree.root_index()) {
        assert!(!tree.get_node(child).unwrap().is_leaf());
    }

    // the centre of the entries still finds all nine payloads
    let mut found: Vec<u32> = tree
        .point_lookup(&point2(1, 1))
        .unwrap()
        .into_iter()
        .map(|h| *tree.get_node(h).unwrap().get_data().unwrap())
        .collect();
    found.sort();
    assert_eq!(found, (0..9).collect::<Vec<u32>>());
}

#[test]
fn test_many_random_rectangles() {
    let mut tree = RTree::new(2);
    let mut rng = rand::thread_rng();
    let mut centers: Vec<(Point, usize)> = Vec::new();

    for payload in 0..500usize {
        let xmin = rng.gen_range(0..1000i64);
        let ymin = rng.gen_range(0..1000i64);
        let width = rng.gen_range(0..=(1000 - xmin));
        let height = rng.gen_range(0..=(1000 - ymin));
        let r = rect2(xmin, ymin, xmin + width, ymin + height);
        let center = r.get_center();
        tree.insert(r, payload).unwrap();
        centers.push((center, payload));

        assert!(tree.validate_consistency());

        // the entry just inserted is immediately found at its centre
        let hits = tree.point_lookup(&centers[payload].0).unwrap();
        assert!(hits
            .iter()
            .any(|h| *tree.get_node(*h).unwrap().get_data().unwrap() == payload));
    }

    // every previously inserted centre is still found
    for (center, payload) in &centers {
        let hits = tree.point_lookup(center).unwrap();
        assert!(hits
            .iter()
            .any(|h| *tree.get_node(*h).unwrap().get_data().unwrap() == *payload));
    }
}

#[test]
fn test_insert_dimension_mismatch() {
    let mut tree: RTree<u32> = RTree::new(2);
    let bad = Region::new(vec![(0, 1), (0, 1), (0, 1)]);
    assert_eq!(
        tree.insert(bad, 1),
        Err(ShapelikeError::UnmatchedDimensions(2, 3))
    );
    // the failed insert did not change the tree
    assert_eq!(tree.node_iter().len(), 1);

    assert_eq!(
        tree.point_lookup(&Point::new(vec![0])).unwrap_err(),
        ShapelikeError::UnmatchedDimensions(2, 1)
    );
    assert_eq!(
        tree.region_intersection_lookup(&Region::new(vec![(0, 1)])).unwrap_err(),
        ShapelikeError::UnmatchedDimensions(2, 1)
    );
    assert_eq!(
        tree.region_lookup(&Region::new(vec![(0, 1)])).unwrap_err(),
        ShapelikeError::UnmatchedDimensions(2, 1)
    );
}

#[test]
fn test_handles_and_accessors() {
    let mut tree = RTree::new(2);
    tree.insert(rect2(0, 0, 4, 4), 'A').unwrap();
    tree.insert(rect2(1, 1, 2, 2), 'B').unwrap();

    // the root is an internal node covering both entries
    let root = tree.root_index();
    let root_node = tree.get_node(root).unwrap();
    assert!(!root_node.is_leaf());
    assert!(root_node.has_children());
    assert_eq!(root_node.child_count(), 2);
    assert_eq!(root_node.get_region().coordinates, vec![(0, 4), (0, 4)]);

    // dereferencing an unknown slot or a stale generation fails
    assert!(tree.get_node(Index { slot: 999, generation: 0 }).is_none());
    assert!(tree.get_node(Index { slot: 0, generation: 1 }).is_none());

    // every child handle resolves, and the child lists its parent
    for child in tree.child_iter(root) {
        let node = tree.get_node(child).unwrap();
        assert!(node.is_leaf());
        assert_eq!(node.get_parent(), Some(root));
    }

    // the edge list names every non-root node as a child exactly once
    let edges = tree.collect_edges();
    assert_eq!(edges.len(), tree.node_iter().len() - 1);
    for (parent, child) in edges {
        assert_eq!(tree.get_node(child).unwrap().get_parent(), Some(parent));
    }
}

#[test]
fn test_empty_tree() {
    let tree: RTree<char> = RTree::new(2);
    assert!(tree.validate_consistency());
    assert_eq!(tree.node_iter().len(), 1);
    assert!(!tree.root_node().is_leaf());
    assert!(!tree.root_node().has_children());
    assert!(tree.point_lookup(&point2(0, 0)).unwrap().is_empty());
    assert!(tree.region_intersection_lookup(&rect2(-5, -5, 5, 5)).unwrap().is_empty());
    assert!(tree.collect_edges().is_empty());
}

#[test]
fn test_one_dimensional_tree() {
    let mut tree = RTree::new(1);
    for i in 0..20i64 {
        tree.insert(Region::new(vec![(i, i + 2)]), i).unwrap();
        assert!(tree.validate_consistency());
    }
    // the intervals [3,5], [4,6], [5,7] all cover the point 5
    let mut found: Vec<i64> = tree
        .point_lookup(&Point::new(vec![5]))
        .unwrap()
        .into_iter()
        .map(|h| *tree.get_node(h).unwrap().get_data().unwrap())
        .collect();
    found.sort();
    assert_eq!(found, vec![3, 4, 5]);
}

#[test]
fn test_three_dimensional_tree() {
    let mut tree = RTree::new(3);
    for i in 0..30i64 {
        let r = Region::new(vec![(i, i + 1), (2 * i, 2 * i + 2), (-i, i)]);
        tree.insert(r, i).unwrap();
        assert!(tree.validate_consistency());
    }
    let hits = tree
        .region_intersection_lookup(&Region::new(vec![(0, 2), (0, 4), (0, 0)]))
        .unwrap();
    let mut found: Vec<i64> = hits
        .into_iter()
        .map(|h| *tree.get_node(h).unwrap().get_data().unwrap())
        .collect();
    found.sort();
    assert_eq!(found, vec![0, 1, 2]);
}

#[test]
fn test_grid_lookups_after_splits() {
    // a 6-by-6 grid of unit squares forces several splits
    let mut tree = RTree::new(2);
    for x in 0..6i64 {
        for y in 0..6i64 {
            tree.insert(rect2(10 * x, 10 * y, 10 * x + 10, 10 * y + 10), (x, y)).unwrap();
        }
    }
    assert!(tree.validate_consistency());

    // an interior corner touches exactly four squares
    let hits = tree.point_lookup(&point2(30, 30)).unwrap();
    let mut found: Vec<(i64, i64)> = hits
        .into_iter()
        .map(|h| *tree.get_node(h).unwrap().get_data().unwrap())
        .collect();
    found.sort();
    assert_eq!(found, vec![(2, 2), (2, 3), (3, 2), (3, 3)]);

    // a query region strictly inside one square is contained in it alone
    let hits = tree.region_containment_lookup(&rect2(12, 12, 18, 18)).unwrap();
    assert_eq!(hits.len(), 1);
    assert_eq!(*tree.get_node(hits[0]).unwrap().get_data().unwrap(), (1, 1));

    // the root region covers every inserted rectangle exactly
    assert_eq!(tree.root_node().get_region().coordinates, vec![(0, 60), (0, 60)]);

    // every non-root internal node keeps the fanout bounds
    let root = tree.root_index();
    for handle in tree.node_iter() {
        let node = tree.get_node(handle).unwrap();
        if handle != root && !node.is_leaf() {
            assert!(2 <= node.child_count() && node.child_count() <= 8);
        }
    }

    // all leaves sit at the same depth
    let mut leaf_depth = None;
    for handle in tree.node_iter() {
        if tree.get_node(handle).unwrap().is_leaf() {
            let mut depth = 0u32;
            let mut cursor = handle;
            while let Some(parent) = tree.get_node(cursor).unwrap().get_parent() {
                depth += 1;
                cursor = parent;
            }
            match leaf_depth {
                None => leaf_depth = Some(depth),
                Some(d) => assert_eq!(d, depth),
            }
        }
    }
    assert!(leaf_depth.is_some());
}

#[test]
fn test_render_options() {
    let mut options = TreeRenderOptions::new(1920, 1080);
    assert_eq!(options.width(), 1920);
    assert_eq!(options.height(), 1080);
    assert_eq!(options.threshold(), None);

    options.with_threshold(3);
    assert_eq!(options.threshold(), Some(3));

    options.without_threshold();
    assert_eq!(options.threshold(), None);
}
