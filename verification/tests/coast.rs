use route::{AssemblyError, Coast, Coasts, Coordinate, EdgeBearings, EdgeCheck, Node};
use route::classifier::check_edge;

fn at(lon: i32, lat: i32) -> Coordinate {
    Coordinate { lon, lat }
}

fn square() -> Coasts {
    let ways = vec![vec![at(0, 0), at(10, 0), at(10, 10), at(0, 10), at(0, 0)]];
    Coasts::new_from_ways(&ways).ok().unwrap()
}

#[test]
fn closed_way_is_a_ring_of_its_own() {
    let coasts = square();
    assert_eq!(coasts.actual_coasts.len(), 1);
    let ring = &coasts.actual_coasts[0];
    assert_eq!(ring.coordinates, vec![at(0, 0), at(10, 0), at(10, 10), at(0, 10), at(0, 0)]);
    assert_eq!(ring.leftmost, 0);
    assert_eq!(ring.rightmost, 10);
    assert_eq!(ring.get_first(), at(0, 0));
    assert_eq!(ring.get_last(), at(0, 0));
}

#[test]
fn fragments_are_joined_where_they_meet() {
    let ways = vec![
        vec![at(5, 5), at(-7, 6), at(0, 0)],
        vec![at(100, 100), at(110, 100), at(100, 100)],
        vec![at(0, 0), at(3, 1), at(5, 5)],
    ];
    let coasts = Coasts::new_from_ways(&ways).ok().unwrap();
    assert_eq!(coasts.actual_coasts.len(), 2);
    let first = &coasts.actual_coasts[0];
    assert_eq!(
        first.coordinates,
        vec![at(5, 5), at(-7, 6), at(0, 0), at(0, 0), at(3, 1), at(5, 5)]
    );
    assert_eq!(first.leftmost, -7);
    assert_eq!(first.rightmost, 5);
    let second = &coasts.actual_coasts[1];
    assert_eq!(second.coordinates, vec![at(100, 100), at(110, 100), at(100, 100)]);
    assert_eq!(second.leftmost, 100);
    assert_eq!(second.rightmost, 110);
}

#[test]
fn every_fragment_is_used_once() {
    let ways = vec![
        vec![at(1, 0), at(2, 0)],
        vec![at(3, 0), at(1, 0)],
        vec![at(2, 0), at(3, 0)],
        vec![at(9, 9), at(8, 8)],
        vec![at(8, 8), at(9, 9)],
    ];
    let coasts = Coasts::new_from_ways(&ways).ok().unwrap();
    assert_eq!(coasts.actual_coasts.len(), 2);
    let points: usize = coasts.actual_coasts.iter().map(|c| c.coordinates.len()).sum();
    assert_eq!(points, 10);
    for ring in &coasts.actual_coasts {
        assert_eq!(ring.coordinates[0], *ring.coordinates.last().unwrap());
    }
    assert_eq!(
        coasts.actual_coasts[0].coordinates,
        vec![at(1, 0), at(2, 0), at(2, 0), at(3, 0), at(3, 0), at(1, 0)]
    );
}

#[test]
fn missing_continuation_is_reported() {
    let ways = vec![vec![at(0, 0), at(1, 1)], vec![at(1, 1), at(2, 2)]];
    match Coasts::new_from_ways(&ways) {
        Err(AssemblyError::MissingContinuation(c)) => assert_eq!(c, at(2, 2)),
        _ => panic!("the ring cannot be closed"),
    }
}

#[test]
fn two_fragments_ending_at_one_point_cannot_be_joined() {
    let ways = vec![
        vec![at(0, 0), at(5, 5)],
        vec![at(5, 5), at(7, 7)],
        vec![at(7, 7), at(5, 5)],
    ];
    assert!(matches!(
        Coasts::new_from_ways(&ways),
        Err(AssemblyError::MissingContinuation(_))
    ));
}

#[test]
fn empty_way_is_reported() {
    let ways = vec![vec![at(0, 0), at(0, 0)], vec![], vec![]];
    assert!(matches!(Coasts::new_from_ways(&ways), Err(AssemblyError::EmptyWay(1))));
}

#[test]
fn no_way_gives_no_ring() {
    let coasts = Coasts::new_from_ways(&Vec::new()).ok().unwrap();
    assert!(coasts.actual_coasts.is_empty());
}

#[test]
fn later_fragment_replaces_an_earlier_one_with_the_same_start() {
    let ways = vec![
        vec![at(0, 0), at(50, 50)],
        vec![at(0, 0), at(1, 0), at(0, 0)],
    ];
    let coasts = Coasts::new_from_ways(&ways).ok().unwrap();
    assert_eq!(coasts.actual_coasts.len(), 1);
    assert_eq!(coasts.actual_coasts[0].coordinates, vec![at(0, 0), at(1, 0), at(0, 0)]);
}

#[test]
fn extreme_coordinates_have_distinct_keys() {
    let ways = vec![
        vec![at(i32::MIN, i32::MAX), at(i32::MAX, i32::MIN)],
        vec![at(i32::MAX, i32::MIN), at(i32::MIN, i32::MAX)],
    ];
    let coasts = Coasts::new_from_ways(&ways).ok().unwrap();
    assert_eq!(coasts.actual_coasts.len(), 1);
    assert_eq!(coasts.actual_coasts[0].leftmost, i32::MIN);
    assert_eq!(coasts.actual_coasts[0].rightmost, i32::MAX);
}

#[test]
fn edges_along_a_meridian_are_skipped() {
    assert_eq!(check_edge(at(5, 5), at(5, 0), at(5, 9)), EdgeCheck::Skip);
    assert_eq!(check_edge(at(5, 0), at(5, 0), at(5, 9)), EdgeCheck::Skip);
}

#[test]
fn node_on_first_vertex_is_found() {
    assert_eq!(check_edge(at(3, 4), at(3, 4), at(8, 4)), EdgeCheck::OnVertex);
    assert_eq!(check_edge(at(8, 4), at(3, 4), at(8, 4)), EdgeCheck::Skip);
}

#[test]
fn longitude_interval_is_half_open() {
    assert_eq!(check_edge(at(3, 0), at(3, 4), at(8, 4)), EdgeCheck::Bearing);
    assert_eq!(check_edge(at(7, 0), at(8, 4), at(3, 4)), EdgeCheck::Bearing);
    assert_eq!(check_edge(at(8, 0), at(3, 4), at(8, 4)), EdgeCheck::Skip);
    assert_eq!(check_edge(at(2, 0), at(3, 4), at(8, 4)), EdgeCheck::Skip);
    assert_eq!(check_edge(at(9, 0), at(8, 4), at(3, 4)), EdgeCheck::Skip);
}

#[test]
fn interval_is_closed_at_180_degrees_east() {
    assert_eq!(
        check_edge(at(1_800_000_000, 0), at(1_700_000_000, 4), at(1_800_000_000, 4)),
        EdgeCheck::Bearing
    );
}

fn crossing(on_line: bool, water_side: i32, point_side: i32) -> EdgeBearings {
    EdgeBearings { on_line, water_side, point_side }
}

#[test]
fn requests_list_the_edges_in_reach() {
    let coasts = square();
    let node = Node { coordinate: at(5, 5), is_water: true };
    assert_eq!(
        node.bearing_requests(&coasts),
        vec![(at(0, 0), at(10, 0)), (at(10, 10), at(0, 10))]
    );
    let outside = Node { coordinate: at(50, 5), is_water: true };
    assert_eq!(outside.bearing_requests(&coasts), vec![]);
}

#[test]
fn odd_number_of_crossings_is_land() {
    let coasts = square();
    let mut node = Node { coordinate: at(5, 5), is_water: true };
    node.set_water_flag(&coasts, &vec![crossing(false, 1, 1), crossing(false, 1, -1)]);
    assert!(!node.is_water);
    assert_eq!(node.coordinate, at(5, 5));
}

#[test]
fn even_number_of_crossings_is_water() {
    let coasts = square();
    let mut node = Node { coordinate: at(5, 20), is_water: true };
    node.set_water_flag(&coasts, &vec![crossing(false, 1, 1), crossing(false, -1, -1)]);
    assert!(node.is_water);
    let mut node = Node { coordinate: at(5, 20), is_water: true };
    node.set_water_flag(&coasts, &vec![crossing(false, 1, -1), crossing(false, -1, 1)]);
    assert!(node.is_water);
}

#[test]
fn sides_that_are_both_zero_count_as_a_crossing() {
    let coasts = square();
    let mut node = Node { coordinate: at(5, 20), is_water: true };
    node.set_water_flag(&coasts, &vec![crossing(false, 0, 0), crossing(false, 1, 1)]);
    assert!(!node.is_water);
}

#[test]
fn node_in_direction_of_an_edge_is_land() {
    let coasts = square();
    let mut node = Node { coordinate: at(5, 0), is_water: true };
    node.set_water_flag(&coasts, &vec![crossing(true, 1, 1), crossing(false, 1, 1)]);
    assert!(!node.is_water);
}

#[test]
fn node_on_a_vertex_is_land() {
    let coasts = square();
    let mut node = Node { coordinate: at(10, 10), is_water: true };
    let requests = node.bearing_requests(&coasts);
    let answers = vec![crossing(false, 1, 1); requests.len()];
    node.set_water_flag(&coasts, &answers);
    assert!(!node.is_water);
}

#[test]
fn south_pole_is_land() {
    let coasts = Coasts { actual_coasts: Vec::new() };
    let mut node = Node { coordinate: at(0, -900_000_000), is_water: true };
    node.set_water_flag(&coasts, &Vec::new());
    assert!(!node.is_water);
}

#[test]
fn node_on_the_north_pole_is_water_when_sides_agree() {
    // A ring around the pole that runs up the antimeridian and over the
    // pole. Where the pole and the node lie on the same side of every edge
    // that is asked about, no crossing is counted.
    let ways = vec![vec![
        at(-1_800_000_000, 800_000_000),
        at(-600_000_000, 800_000_000),
        at(600_000_000, 800_000_000),
        at(1_800_000_000, 800_000_000),
        at(1_800_000_000, 900_000_000),
        at(-1_800_000_000, 900_000_000),
        at(-1_800_000_000, 800_000_000),
    ]];
    let coasts = Coasts::new_from_ways(&ways).ok().unwrap();
    let mut node = Node { coordinate: at(0, 900_000_000), is_water: true };
    let requests = node.bearing_requests(&coasts);
    assert_eq!(
        requests,
        vec![
            (at(-600_000_000, 800_000_000), at(600_000_000, 800_000_000)),
            (at(1_800_000_000, 900_000_000), at(-1_800_000_000, 900_000_000)),
        ]
    );
    node.set_water_flag(&coasts, &vec![crossing(false, 1, 1), crossing(false, -1, -1)]);
    assert!(node.is_water);
}

#[test]
fn node_out_of_reach_of_every_coast_is_water() {
    let coasts = square();
    let mut node = Node { coordinate: at(11, 5), is_water: true };
    node.set_water_flag(&coasts, &Vec::new());
    assert!(node.is_water);
}

#[test]
fn classifying_twice_changes_nothing() {
    let coasts = square();
    let answers = vec![crossing(false, 1, 1), crossing(false, 1, -1)];
    let mut node = Node { coordinate: at(5, 5), is_water: true };
    node.set_water_flag(&coasts, &answers);
    let once = node;
    node.set_water_flag(&coasts, &answers);
    assert_eq!(node, once);
    let mut land = Node { coordinate: at(5, 20), is_water: false };
    land.set_water_flag(&coasts, &vec![crossing(false, 1, 1), crossing(false, -1, -1)]);
    assert!(!land.is_water);
}

#[test]
fn coast_can_be_built_by_hand() {
    let coast = Coast { coordinates: vec![at(1, 2), at(3, 4)], leftmost: 1, rightmost: 3 };
    assert_eq!(coast.get_first(), at(1, 2));
    assert_eq!(coast.get_last(), at(3, 4));
}
