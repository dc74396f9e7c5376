use rand::Rng;

use kdtree::distance::squared_euclidean;
use kdtree::Kdtree;
use kdtree::KdtreePointTrait;
use kdtree::Point3WithId;

fn gen_random() -> i64 {
    rand::thread_rng().gen_range(0..10_000_000i64)
}

fn find_nn_with_linear_search(points: &Vec<Point3WithId>, find_for: Point3WithId) -> &Point3WithId {
    let find_dims = find_for.dims();
    let mut best_found_distance = squared_euclidean(&find_dims, &points[0].dims());
    let mut closed_found_point = &points[0];

    for p in points {
        let dist = squared_euclidean(&find_dims, &p.dims());

        if dist < best_found_distance {
            best_found_distance = dist;
            closed_found_point = &p;
        }
    }

    closed_found_point
}

#[test]
fn test_against_1000_random_points() {
    let mut points: Vec<Point3WithId> = vec![];

    let point_count = 1000usize;
    for i in 0..point_count {
        points.push(Point3WithId::new(
            i as i32,
            gen_random(),
            gen_random(),
            gen_random(),
        ));
    }

    let mut tree_points = points.clone();
    let tree = Kdtree::new(&mut tree_points);

    // the tree holds exactly one node per input point
    assert_eq!(tree.node_count(), point_count);

    // test points pushed into the tree, id should be equal
    for i in 0..point_count {
        let p = &points[i];

        assert_eq!(p.id, tree.nearest_search(p).id);
    }

    // test randomly generated points within the cube and do the linear
    // search; the results should match
    for _ in 0..500 {
        let p = Point3WithId::new(0i32, gen_random(), gen_random(), gen_random());

        let found_by_linear_search = find_nn_with_linear_search(&points, p);
        let point_found_by_kdtree = tree.nearest_search(&p);

        assert_eq!(point_found_by_kdtree.id, found_by_linear_search.id);
    }
}

#[test]
fn random_inserts_agree_with_linear_search() {
    let mut points: Vec<Point3WithId> = vec![];
    for i in 0..50 {
        points.push(Point3WithId::new(
            i as i32,
            gen_random(),
            gen_random(),
            gen_random(),
        ));
    }

    let mut seed = vec![points[0]];
    let mut tree = Kdtree::new(&mut seed);
    for p in points.iter().skip(1) {
        tree.insert_node(*p);
    }
    assert_eq!(tree.node_count(), points.len());

    for _ in 0..100 {
        let q = Point3WithId::new(-1, gen_random(), gen_random(), gen_random());
        let by_scan = find_nn_with_linear_search(&points, q);
        let by_tree = tree.nearest_search(&q);
        assert_eq!(by_tree.id, by_scan.id);
    }
}
