use kdtree::bounds::Bounds;
use kdtree::buffors::FakeKdtreeBuffor;
use kdtree::buffors::KdtreeBuffor;
use kdtree::distance::euclidean;
use kdtree::distance::squared_euclidean;
use kdtree::distance::DistanceMetric;
use kdtree::partition::partition_sliding_midpoint;
use kdtree::Kdtree;
use kdtree::KdtreePointTrait;
use kdtree::Point1WithId;
use kdtree::Point2WithId;
use kdtree::Point3WithId;

#[test]
fn bounds_test() {
    let p1 = Point2WithId::new(1, 1000, 500);
    let p2 = Point2WithId::new(1, 3000, 4000);
    let v = vec![p1, p2];

    let bounds = Bounds::new_from_points(&v);

    assert_eq!((1000, 3000), bounds.bounds[0]);
    assert_eq!((500, 4000), bounds.bounds[1]);

    assert_eq!(1, bounds.get_widest_dim());
}

#[test]
fn bounds_midvalue_and_moved_copies() {
    let p1 = Point2WithId::new(1, 0, 0);
    let p2 = Point2WithId::new(2, 100, 4000);
    let v = vec![p1, p2];

    let bounds = Bounds::new_from_points(&v);
    assert_eq!(bounds.get_widest_dim(), 1);
    assert_eq!(bounds.get_midvalue_of_widest_dim(), 2000);

    let moved_max = bounds.clone_moving_max(2000, 1);
    assert_eq!(moved_max.bounds[1], (0, 2000));
    assert_eq!(moved_max.bounds[0], (0, 100));

    let moved_min = bounds.clone_moving_min(2000, 1);
    assert_eq!(moved_min.bounds[1], (2000, 4000));
    assert_eq!(moved_min.bounds[0], (0, 100));
}

#[test]
#[should_panic]
fn should_panic_given_empty_vector() {
    let mut empty_vec: Vec<Point2WithId> = vec![];

    Kdtree::new(&mut empty_vec);
}

#[test]
fn has_neighbor_in_range() {
    let mut vec: Vec<Point2WithId> = vec![Point2WithId::new(0, 2000, 0)];

    let tree = Kdtree::new(&mut vec);

    assert_eq!(
        false,
        tree.has_neighbor_in_range(&Point2WithId::new(0, 0, 0), 0)
    );
    assert_eq!(
        false,
        tree.has_neighbor_in_range(&Point2WithId::new(0, 0, 0), 1000)
    );
    assert_eq!(
        true,
        tree.has_neighbor_in_range(&Point2WithId::new(0, 0, 0), 2000)
    );
    assert_eq!(
        true,
        tree.has_neighbor_in_range(&Point2WithId::new(0, 0, 0), 300000)
    );
}

#[test]
fn incremental_add_adds_as_expected() {
    // this test is tricky because it can have problems with the automatic
    // tree rebuild

    let mut vec = vec![Point2WithId::new(0, 0, 0)];

    let mut tree = Kdtree::new(&mut vec);

    tree.insert_node(Point2WithId::new(0, 1000, 0));
    tree.insert_node(Point2WithId::new(0, -1000, 0));

    assert_eq!(tree.node_count(), 3);
    assert_eq!(tree.node_dimension(0), 0);

    assert_eq!(tree.node_left(0).is_some(), true);
    assert_eq!(tree.node_point(1).dims()[0], 1000);
    assert_eq!(tree.node_point(2).dims()[0], -1000);

    assert_eq!(tree.node_right(0).is_some(), true);
}

#[test]
fn incremental_add_filters_duplicates() {
    let mut vec = vec![Point2WithId::new(0, 0, 0)];

    let mut tree = Kdtree::new(&mut vec);

    let node = Point2WithId::new(0, 1000, 0);
    tree.insert_node(node);
    tree.insert_node(node);

    assert_eq!(tree.node_count(), 2);
}

#[test]
fn incremental_add_duplicate_of_inner_node_is_kept() {
    // duplicate suppression only fires when the walk ends next to the equal
    // node; a duplicate of an inner node deeper in the tree is attached
    let mut vec = vec![
        Point1WithId::new(0, 0),
        Point1WithId::new(1, 1000),
        Point1WithId::new(2, 2000),
    ];
    let mut tree = Kdtree::new(&mut vec);
    assert_eq!(tree.node_count(), 3);

    // the root of this tree holds the middle point
    assert_eq!(tree.node_point(0).id, 1);
    tree.insert_node(Point1WithId::new(1, 1000));
    assert_eq!(tree.node_count(), 4);
}

#[test]
fn insert_of_new_point_always_adds() {
    let mut vec = vec![Point2WithId::new(0, 0, 0)];
    let mut tree = Kdtree::new(&mut vec);
    for i in 1..20i32 {
        tree.insert_node(Point2WithId::new(i, 1000 * i as i64, -500 * i as i64));
        assert_eq!(tree.node_count(), (i + 1) as usize);
    }
    for i in 0..20i32 {
        let found = tree.nearest_search(&Point2WithId::new(i, 1000 * i as i64, -500 * i as i64));
        assert_eq!(found.id, i);
    }
}

#[test]
fn within_scenario_with_both_metrics() {
    let a = Point3WithId::new(0, 0, 0, 0);
    let b = Point3WithId::new(1, 1000, 0, 0);
    let c = Point3WithId::new(2, 1000, 1000, 0);
    let d = Point3WithId::new(3, 1000, 1000, 1000);
    let mut pts = vec![a, b, c, d];
    let tree = Kdtree::new(&mut pts);

    assert_eq!(tree.nearest_search(&a).id, 0);

    assert_eq!(tree.within(&a, 1, DistanceMetric::Euclidean).len(), 1);
    assert_eq!(tree.within(&a, 1001, DistanceMetric::Euclidean).len(), 2);
    assert_eq!(tree.within(&a, 1415, DistanceMetric::Euclidean).len(), 3);
    assert_eq!(tree.within(&a, 2000, DistanceMetric::Euclidean).len(), 4);
    assert_eq!(
        tree.within(&a, 4_000_000, DistanceMetric::SquaredEuclidean)
            .len(),
        4
    );
    // an oversized radius, too large for its square to be representable,
    // still selects everything
    assert_eq!(tree.within(&a, u128::MAX, DistanceMetric::Euclidean).len(), 4);
}

#[test]
fn within_is_monotonic_in_radius() {
    let a = Point3WithId::new(0, 0, 0, 0);
    let b = Point3WithId::new(1, 1000, 0, 0);
    let c = Point3WithId::new(2, 1000, 1000, 0);
    let d = Point3WithId::new(3, 1000, 1000, 1000);
    let mut pts = vec![a, b, c, d];
    let tree = Kdtree::new(&mut pts);

    let mut last_len = 0usize;
    for radius in [0u128, 500, 1000, 1400, 1500, 1800, 5000] {
        let found = tree.within(&a, radius, DistanceMetric::Euclidean);
        assert!(found.len() >= last_len);
        last_len = found.len();
    }

    // the nearest neighbor of a query is a member of every range query
    // whose radius admits it
    let query = Point3WithId::new(9, 900, 100, 0);
    let nearest = tree.nearest_search(&query);
    let found = tree.within(&query, 5000, DistanceMetric::Euclidean);
    assert!(found.iter().any(|p| p.id == nearest.id));
}

#[test]
fn gather_points_and_rebuild_preserves_contents() {
    let mut vec = vec![
        Point2WithId::new(0, 0, 0),
        Point2WithId::new(1, 1000, 0),
        Point2WithId::new(2, 0, 1000),
        Point2WithId::new(3, -3000, 500),
    ];
    let mut tree = Kdtree::new(&mut vec);
    tree.insert_node(Point2WithId::new(4, 250, 250));
    tree.gather_points_and_rebuild();

    assert_eq!(tree.node_count(), 5);
    for i in 0..5i32 {
        let p = match i {
            0 => Point2WithId::new(0, 0, 0),
            1 => Point2WithId::new(1, 1000, 0),
            2 => Point2WithId::new(2, 0, 1000),
            3 => Point2WithId::new(3, -3000, 500),
            _ => Point2WithId::new(4, 250, 250),
        };
        assert_eq!(tree.nearest_search(&p).id, i);
    }
}

#[test]
fn partition_splits_at_target_when_both_sides_hold_points() {
    let mut pts = vec![
        Point1WithId::new(0, 5000),
        Point1WithId::new(1, 1000),
        Point1WithId::new(2, 9000),
        Point1WithId::new(3, 3000),
    ];
    let (m, v) = partition_sliding_midpoint(&mut pts, 0, 4, 4000, 0);
    assert_eq!(v, 4000);
    for j in 0..=m {
        assert!(pts[j].dims()[0] <= v);
    }
    for j in (m + 1)..4 {
        assert!(pts[j].dims()[0] > v);
    }
}

#[test]
fn partition_slides_toward_the_data() {
    // everything lies above the requested split: the pivot value slides
    // down to the smallest coordinate present
    let mut pts = vec![
        Point1WithId::new(0, 7000),
        Point1WithId::new(1, 5000),
        Point1WithId::new(2, 9000),
    ];
    let (m, v) = partition_sliding_midpoint(&mut pts, 0, 3, 0, 0);
    assert_eq!(v, 5000);
    assert_eq!(m, 0);
    assert_eq!(pts[0].dims()[0], 5000);

    // all coordinates identical: one point is isolated as the pivot
    let mut same = vec![
        Point1WithId::new(0, 4000),
        Point1WithId::new(1, 4000),
        Point1WithId::new(2, 4000),
    ];
    let (m2, v2) = partition_sliding_midpoint(&mut same, 0, 3, 0, 0);
    assert_eq!(v2, 4000);
    assert_eq!(m2, 2);
}

#[test]
fn distance_functions_compute_exact_values() {
    let a = vec![0i64, 0];
    let b = vec![3i64, 4];
    assert_eq!(squared_euclidean(&a, &b), 25);
    assert_eq!(euclidean(&a, &b), 5);

    let c = vec![0i64, 0];
    let d = vec![1i64, 1];
    assert_eq!(squared_euclidean(&c, &d), 2);
    // the Euclidean distance is rounded down to the nearest integer
    assert_eq!(euclidean(&c, &d), 1);

    let e = vec![-1_000_000_000i64];
    let f = vec![1_000_000_000i64];
    assert_eq!(squared_euclidean(&e, &f), 4_000_000_000_000_000_000u128);
    assert_eq!(euclidean(&e, &f), 2_000_000_000);
}

#[test]
fn fake_buffor_declines_every_query() {
    let buffor = FakeKdtreeBuffor::new();
    let p = Point2WithId::new(0, 1, 2);
    let answer: Option<Point2WithId> = buffor.nearest_search(&p);
    assert!(answer.is_none());
    assert!(!KdtreeBuffor::<Point2WithId>::has_neighbor_in_range(
        &buffor, &p
    ));
}
