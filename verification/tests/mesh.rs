use t3d::fixed::square_root;
use t3d::model::{distance, Model};
use t3d::three::Point;

const ONE: i64 = 1_000_000;

#[test]
fn new_keeps_what_it_is_given() {
    let points = vec![Point::new(1, 2, 3)];
    let edges = vec![(Point::new(1, 2, 3), Point::new(4, 5, 6))];
    let model = Model::new(points.clone(), edges.clone(), Point::new(7, 8, 9));
    assert_eq!(model.points, points);
    assert_eq!(model.edges, edges);
    assert_eq!(model.position, Point::new(7, 8, 9));
}

#[test]
fn cube_has_eight_corners_and_twelve_edges() {
    let cube = Model::new_cube(2 * ONE, Point::new(5, 6, 7));
    let h = ONE;
    let front =
        [Point::new(-h, -h, h), Point::new(-h, h, h), Point::new(h, h, h), Point::new(h, -h, h)];
    let rear =
        [Point::new(-h, -h, -h), Point::new(-h, h, -h), Point::new(h, h, -h), Point::new(h, -h, -h)];
    assert_eq!(
        cube.points,
        vec![front[0], front[1], front[2], front[3], rear[0], rear[1], rear[2], rear[3]]
    );
    assert_eq!(
        cube.edges,
        vec![
            (front[0], front[1]),
            (front[1], front[2]),
            (front[2], front[3]),
            (front[3], front[0]),
            (rear[0], rear[1]),
            (rear[1], rear[2]),
            (rear[2], rear[3]),
            (rear[3], rear[0]),
            (rear[0], front[0]),
            (rear[1], front[1]),
            (rear[2], front[2]),
            (rear[3], front[3]),
        ]
    );
    assert_eq!(cube.position, Point::new(5, 6, 7));
}

#[test]
fn cube_of_odd_or_negative_side() {
    assert_eq!(Model::new_cube(3, Point::new(0, 0, 0)).points[2], Point::new(1, 1, 1));
    assert_eq!(Model::new_cube(-3, Point::new(0, 0, 0)).points[2], Point::new(-1, -1, -1));
    assert_eq!(Model::new_cube(0, Point::new(0, 0, 0)).points[0], Point::new(0, 0, 0));
    let largest = Model::new_cube(i64::MAX, Point::new(0, 0, 0));
    assert_eq!(largest.points[2].x, i64::MAX / 2);
    let least = Model::new_cube(i64::MIN, Point::new(0, 0, 0));
    assert_eq!(least.points[2].x, i64::MIN / 2);
    assert_eq!(least.points[0].x, -(i64::MIN / 2));
}

#[test]
fn model_to_world_adds_the_position() {
    let model = Model::new(Vec::new(), Vec::new(), Point::new(10, -20, 30));
    assert_eq!(model.model_to_world(&Point::new(1, 2, 3)), Point::new(11, -18, 33));
}

#[test]
fn model_to_world_stays_within_the_range() {
    let model = Model::new(Vec::new(), Vec::new(), Point::new(1, -1, i64::MAX));
    assert_eq!(
        model.model_to_world(&Point::new(i64::MAX, i64::MIN, i64::MAX)),
        Point::new(i64::MAX, i64::MIN, i64::MAX)
    );
}

#[test]
fn bounds_of_an_empty_mesh_are_the_origin() {
    let model = Model::new(Vec::new(), Vec::new(), Point::new(5, 5, 5));
    assert_eq!(model.world_bounds(), (Point::new(0, 0, 0), Point::new(0, 0, 0)));
}

#[test]
fn bounds_hold_points_and_edges_in_world_space() {
    let model = Model::new(
        vec![Point::new(1, 5, -2), Point::new(-3, 0, 4)],
        vec![(Point::new(0, 9, 0), Point::new(2, -7, 1)), (Point::new(0, 0, -8), Point::new(6, 0, 0))],
        Point::new(100, 200, 300),
    );
    assert_eq!(model.world_bounds(), (Point::new(97, 193, 292), Point::new(106, 209, 304)));
}

#[test]
fn bounds_of_a_mesh_of_edges_only() {
    let model = Model::new(
        Vec::new(),
        vec![(Point::new(3, 1, 2), Point::new(-1, 4, 0))],
        Point::new(0, 0, 0),
    );
    assert_eq!(model.world_bounds(), (Point::new(-1, 1, 0), Point::new(3, 4, 2)));
}

#[test]
fn bounds_of_one_point() {
    let model = Model::new(vec![Point::new(3, 1, 2)], Vec::new(), Point::new(1, 1, 1));
    assert_eq!(model.world_bounds(), (Point::new(4, 2, 3), Point::new(4, 2, 3)));
}

#[test]
fn bounds_of_a_loaded_mesh() {
    let model =
        Model::new_obj("v -1 0 2.5\nv 3 -4 0\nv 0 0 0\n", Point::new(ONE, ONE, ONE)).unwrap();
    assert_eq!(
        model.world_bounds(),
        (Point::new(0, -3 * ONE, ONE), Point::new(4 * ONE, ONE, 3_500_000))
    );
}

#[test]
fn square_root_is_rounded_down() {
    for (s, r) in [(0u128, 0u128), (1, 1), (2, 1), (3, 1), (4, 2), (8, 2), (9, 3), (99, 9), (100, 10),
        (12_000_000_000_000, 3_464_101)]
    {
        assert_eq!(square_root(s), r, "{}", s);
    }
    assert_eq!(square_root(u128::MAX), u64::MAX as u128);
    assert_eq!(square_root((u64::MAX as u128) * (u64::MAX as u128)), u64::MAX as u128);
    assert_eq!(square_root((u64::MAX as u128) * (u64::MAX as u128) - 1), u64::MAX as u128 - 1);
    assert_eq!(square_root(1 << 126), 1 << 63);
}

#[test]
fn distance_is_the_length_of_the_diagonal() {
    assert_eq!(distance(&Point::new(0, 0, 0), &Point::new(0, 0, 0)), 0);
    assert_eq!(distance(&Point::new(1, 2, 3), &Point::new(3, 5, 9)), 7);
    assert_eq!(distance(&Point::new(3, 5, 9), &Point::new(1, 2, 3)), 7);
    assert_eq!(distance(&Point::new(-ONE, -ONE, -ONE), &Point::new(ONE, ONE, ONE)), 3_464_101);
    assert_eq!(distance(&Point::new(0, 0, 0), &Point::new(1, 1, 0)), 1);
    assert_eq!(distance(&Point::new(-4, 0, 0), &Point::new(0, 3, 0)), 5);
}

#[test]
fn distance_stays_within_the_range() {
    let low = Point::new(i64::MIN, i64::MIN, i64::MIN);
    let high = Point::new(i64::MAX, i64::MAX, i64::MAX);
    assert_eq!(distance(&low, &high), i64::MAX);
    assert_eq!(distance(&Point::new(0, 0, 0), &high), i64::MAX);
    assert_eq!(distance(&Point::new(0, 0, 0), &Point::new(i64::MAX, 0, 0)), i64::MAX);
    assert_eq!(distance(&Point::new(0, 0, 0), &Point::new(i64::MAX - 1, 0, 0)), i64::MAX - 1);
    assert_eq!(distance(&Point::new(0, 5, 0), &Point::new(i64::MIN, 5, 0)), i64::MAX);
}

#[test]
fn midpoint_is_half_way_rounded_down() {
    assert_eq!(Point::new(0, 2, -4).midpoint(&Point::new(10, 3, -1)), Point::new(5, 2, -3));
    assert_eq!(Point::new(-1, -2, -3).midpoint(&Point::new(0, 0, 0)), Point::new(-1, -1, -2));
    assert_eq!(
        Point::new(i64::MAX, i64::MIN, i64::MIN).midpoint(&Point::new(i64::MAX, i64::MIN, i64::MAX)),
        Point::new(i64::MAX, i64::MIN, -1)
    );
}
