use route::query::{is_across, split_at_antimeridian};
use route::raster::DEGREE;
use route::{AlgorithmState, Coordinate, ExecutionType, GEOJson, Graph, Nodes, StepLengths};

fn at(lon: i32, lat: i32) -> Coordinate {
    Coordinate { lon, lat }
}

fn raster(rows: usize, cols: usize, land: &[usize], length: u32) -> Graph {
    let mut nodes = Nodes::new_generate_not_equally_distributed(rows, cols);
    for cell in land {
        nodes.nodes[*cell].is_water = false;
    }
    let lengths =
        vec![StepLengths { top: length, bottom: length, right: length, left: length }; rows * cols];
    Graph::new_from_nodes(&nodes, &lengths, cols, rows)
}

fn lines(geo: &GEOJson<Vec<Coordinate>>) -> Vec<Vec<Coordinate>> {
    assert_eq!(geo.kind, "FeatureCollection");
    geo.features
        .iter()
        .map(|f| {
            assert_eq!(f.kind, "Feature");
            assert_eq!(f.geometry.kind, "LineString");
            f.geometry.coordinates.clone()
        })
        .collect()
}

const DEG: i32 = DEGREE;

#[test]
fn line_that_stays_on_one_side_is_not_cut() {
    let points = vec![at(10 * DEG, 0), at(20 * DEG, 5 * DEG), at(-100 * DEG, 7 * DEG)];
    assert_eq!(lines(&split_at_antimeridian(&points)), vec![points.clone()]);
}

#[test]
fn line_across_the_antimeridian_is_cut_in_two() {
    let points = vec![at(160 * DEG, DEG), at(170 * DEG, 2 * DEG), at(-170 * DEG, 3 * DEG), at(-160 * DEG, 4 * DEG)];
    assert_eq!(
        lines(&split_at_antimeridian(&points)),
        vec![
            vec![at(160 * DEG, DEG), at(170 * DEG, 2 * DEG), at(180 * DEG, 2 * DEG)],
            vec![at(-180 * DEG, 3 * DEG), at(-170 * DEG, 3 * DEG), at(-160 * DEG, 4 * DEG)],
        ]
    );
}

#[test]
fn line_may_cross_back_and_forth() {
    let points = vec![at(-175 * DEG, 0), at(175 * DEG, DEG), at(-175 * DEG, 2 * DEG)];
    assert_eq!(
        lines(&split_at_antimeridian(&points)),
        vec![
            vec![at(-175 * DEG, 0), at(-180 * DEG, 0)],
            vec![at(180 * DEG, DEG), at(175 * DEG, DEG), at(180 * DEG, DEG)],
            vec![at(-180 * DEG, 2 * DEG), at(-175 * DEG, 2 * DEG)],
        ]
    );
}

#[test]
fn no_piece_holds_a_jump() {
    let points = vec![
        at(150 * DEG, 0),
        at(-150 * DEG, 0),
        at(-20 * DEG, 0),
        at(170 * DEG, 0),
        at(-179 * DEG, 0),
        at(179 * DEG, 0),
    ];
    let pieces = lines(&split_at_antimeridian(&points));
    assert_eq!(pieces.len(), 5);
    for piece in pieces {
        for pair in piece.windows(2) {
            assert!(!is_across(pair[0], pair[1]));
        }
    }
}

#[test]
fn exactly_half_a_turn_apart_is_not_across() {
    assert!(!is_across(at(-90 * DEG, 0), at(90 * DEG, 0)));
    assert!(is_across(at(-90 * DEG, 0), at(90 * DEG + 1, 0)));
    assert!(is_across(at(90 * DEG + 1, 0), at(-90 * DEG, 0)));
}

#[test]
fn empty_polyline_is_one_empty_line() {
    assert_eq!(lines(&split_at_antimeridian(&Vec::new())), vec![Vec::<Coordinate>::new()]);
}

#[test]
fn snap_candidates_bracket_the_point() {
    // 10 x 10 raster: columns every 36 degrees, rows every 18 degrees.
    let graph = raster(10, 10, &[], 1);
    let point = at(-180 * DEG + 40 * DEG, 90 * DEG - 20 * DEG);
    assert_eq!(graph.snap_candidates(point), vec![Some(11), Some(12), Some(21), Some(22)]);
    // East of the last column the first column follows.
    let point = at(170 * DEG, 90 * DEG);
    assert_eq!(graph.snap_candidates(point), vec![Some(9), Some(0), Some(19), Some(10)]);
    // South of the last row the first row follows.
    let point = at(-180 * DEG, -80 * DEG);
    assert_eq!(graph.snap_candidates(point), vec![Some(90), Some(91), Some(0), Some(1)]);
}

#[test]
fn snap_skips_cells_that_the_raster_lacks() {
    let graph = raster(10, 10, &[], 1);
    let point = at(180 * DEG, 0);
    assert_eq!(graph.snap_candidates(point), vec![None, Some(51), None, Some(61)]);
    let point = at(0, -90 * DEG);
    assert_eq!(graph.snap_candidates(point), vec![None, None, Some(15), Some(16)]);
}

#[test]
fn nearest_node_is_the_closest_water_cell() {
    let graph = raster(10, 10, &[], 1);
    let point = at(-180 * DEG + 40 * DEG, 90 * DEG - 20 * DEG);
    assert_eq!(graph.find_nearest_node(point, &vec![40, 30, 20, 10]), Some(22));
    assert_eq!(graph.find_nearest_node(point, &vec![40, 10, 20, 10]), Some(12));
    assert_eq!(graph.find_nearest_slot(point, &vec![5, 5, 5, 5]), Some(0));
}

#[test]
fn nearest_node_skips_land() {
    let graph = raster(10, 10, &[22], 1);
    let point = at(-180 * DEG + 40 * DEG, 90 * DEG - 20 * DEG);
    assert_eq!(graph.find_nearest_node(point, &vec![40, 30, 20, 10]), Some(21));
}

#[test]
fn point_among_land_cells_snaps_to_nothing() {
    let graph = raster(10, 10, &[11, 12, 21, 22], 1);
    let point = at(-180 * DEG + 40 * DEG, 90 * DEG - 20 * DEG);
    assert_eq!(graph.find_nearest_node(point, &vec![1, 2, 3, 4]), None);
    let mut state = AlgorithmState::new(100);
    let far = at(0, 0);
    let answer = graph.find_path(
        point,
        far,
        &vec![1, 2, 3, 4],
        &vec![1, 2, 3, 4],
        99,
        &ExecutionType::Dijkstra,
        &Vec::new(),
        &mut state,
    );
    assert!(answer.is_none());
    let answer = graph.find_path(
        far,
        point,
        &vec![1, 2, 3, 4],
        &vec![1, 2, 3, 4],
        99,
        &ExecutionType::Dijkstra,
        &Vec::new(),
        &mut state,
    );
    assert!(answer.is_none());
}

#[test]
fn distance_at_the_unreached_value_never_wins() {
    let graph = raster(10, 10, &[], 1);
    let point = at(-180 * DEG + 40 * DEG, 90 * DEG - 20 * DEG);
    assert_eq!(graph.find_nearest_node(point, &vec![u32::MAX; 4]), None);
}

#[test]
fn same_snap_node_gives_a_single_leg_without_search() {
    let graph = raster(10, 10, &[], 1000);
    let start = at(-180 * DEG + 37 * DEG, 90 * DEG - 19 * DEG);
    let end = at(-180 * DEG + 38 * DEG, 90 * DEG - 20 * DEG);
    let mut state = AlgorithmState::new(100);
    state.distances[3] = 77;
    let (geo, total) = graph
        .find_path(
            start,
            end,
            &vec![10, 90, 90, 90],
            &vec![20, 90, 90, 90],
            1234,
            &ExecutionType::Dijkstra,
            &Vec::new(),
            &mut state,
        )
        .unwrap();
    assert_eq!(total, 1234);
    assert_eq!(lines(&geo), vec![vec![end, start]]);
    assert_eq!(state.distances[3], 77);
}

#[test]
fn route_runs_from_end_over_the_nodes_to_start() {
    let graph = raster(10, 10, &[], 1000);
    // Start snaps to cell 11, end snaps to cell 13, both in row 1.
    let start = at(-180 * DEG + 37 * DEG, 90 * DEG - 19 * DEG);
    let end = at(-180 * DEG + 110 * DEG, 90 * DEG - 19 * DEG);
    let zeros = vec![0u32; 100];
    for variant in [
        ExecutionType::Dijkstra,
        ExecutionType::BiDijkstra,
        ExecutionType::AStar,
        ExecutionType::ShortcutAStar,
    ] {
        let mut state = AlgorithmState::new(100);
        let (geo, total) = graph
            .find_path(
                start,
                end,
                &vec![7, 90, 90, 90],
                &vec![5, 90, 90, 90],
                0,
                &variant,
                &zeros,
                &mut state,
            )
            .unwrap();
        assert_eq!(total, 2000 + 7 + 5);
        let pieces = lines(&geo);
        assert_eq!(pieces.len(), 1);
        assert_eq!(pieces[0].len(), 5);
        assert_eq!(pieces[0][0], end);
        assert_eq!(pieces[0][1], at(graph.get_lon(13), graph.get_lat(13)));
        assert_eq!(pieces[0][3], at(graph.get_lon(11), graph.get_lat(11)));
        assert_eq!(pieces[0][4], start);
    }
}

#[test]
fn route_across_the_antimeridian_comes_in_two_lines() {
    let graph = raster(10, 10, &[], 1000);
    // Start snaps to cell 50 (180 degrees west), end to cell 59 (144 degrees east).
    let start = at(-179 * DEG, 0);
    let end = at(145 * DEG, 0);
    let mut state = AlgorithmState::new(100);
    let (geo, total) = graph
        .find_path(
            start,
            end,
            &vec![3, 90, 90, 90],
            &vec![4, 90, 90, 90],
            0,
            &ExecutionType::Dijkstra,
            &Vec::new(),
            &mut state,
        )
        .unwrap();
    assert_eq!(total, 1000 + 3 + 4);
    let pieces = lines(&geo);
    assert_eq!(
        pieces,
        vec![
            vec![end, at(144 * DEG, 0), at(180 * DEG, 0)],
            vec![at(-180 * DEG, 0), at(-180 * DEG, 0), start],
        ]
    );
    for piece in pieces {
        for pair in piece.windows(2) {
            assert!(!is_across(pair[0], pair[1]));
        }
    }
}

#[test]
fn no_route_gives_no_answer() {
    // Row 1 is land all the way round.
    let land: Vec<usize> = (10..20).collect();
    let graph = raster(10, 10, &land, 1000);
    let start = at(-180 * DEG + 1, 90 * DEG - 1);
    let end = at(-180 * DEG + 1, 90 * DEG - 37 * DEG);
    let zeros = vec![0u32; 100];
    for variant in [
        ExecutionType::Dijkstra,
        ExecutionType::BiDijkstra,
        ExecutionType::AStar,
        ExecutionType::ShortcutAStar,
    ] {
        let mut state = AlgorithmState::new(100);
        let answer = graph.find_path(
            start,
            end,
            &vec![1, 2, 3, 4],
            &vec![1, 2, 3, 4],
            0,
            &variant,
            &zeros,
            &mut state,
        );
        assert!(answer.is_none());
    }
}

#[test]
fn random_pairs_are_water_nodes_within_the_band() {
    let land: Vec<usize> = (40..50).collect();
    let graph = raster(20, 10, &land, 1);
    let pairs = graph.generate_random_water_nodes(50);
    assert_eq!(pairs.len(), 50);
    for (a, b) in pairs {
        for node in [a, b] {
            assert!(node < 200);
            assert!(graph.is_water(node));
            assert!(graph.get_lat(node) >= -830_000_000);
            assert!(graph.get_lat(node) <= 850_100_000);
        }
    }
    assert_eq!(graph.sample_nodes().len(), 180);
    assert_eq!(graph.sample_nodes()[0], 10);
}

#[test]
fn no_water_gives_no_pairs() {
    let land: Vec<usize> = (0..9).collect();
    let graph = raster(3, 3, &land, 1);
    assert!(graph.generate_random_water_nodes(5).is_empty());
    assert!(raster(3, 3, &[], 1).generate_random_water_nodes(0).is_empty());
}
