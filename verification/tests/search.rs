use route::{AlgorithmState, Edge, ExecutionType, Graph, Nodes, PathResult, StepLengths};

fn raster(rows: usize, cols: usize, land: &[usize], lengths: &Vec<StepLengths>) -> Graph {
    let mut nodes = Nodes::new_generate_not_equally_distributed(rows, cols);
    for cell in land {
        nodes.nodes[*cell].is_water = false;
    }
    Graph::new_from_nodes(&nodes, lengths, cols, rows)
}

fn uniform(count: usize, length: u32) -> Vec<StepLengths> {
    vec![StepLengths { top: length, bottom: length, right: length, left: length }; count]
}

fn edge_length(graph: &Graph, from: usize, to: usize) -> Option<u32> {
    let first = graph.offsets[from].0 as usize;
    let last = graph.offsets[from + 1].0 as usize;
    graph.edges[first..last]
        .iter()
        .filter(|e| e.destination as usize == to)
        .map(|e| e.distance)
        .min()
}

fn check_route(graph: &Graph, start: usize, end: usize, result: &PathResult) {
    let path = result.path.as_ref().unwrap();
    assert_eq!(path[0], end);
    assert_eq!(*path.last().unwrap(), start);
    let mut total: u64 = 0;
    for pair in path.windows(2) {
        total += edge_length(graph, pair[1], pair[0]).unwrap() as u64;
    }
    assert_eq!(total, result.distance.unwrap() as u64);
}

#[test]
fn dijkstra_walks_around_island_without_wrap() {
    // 4 x 4 raster, island on the four inner cells; steps across the
    // antimeridian are made so long that no route takes them.
    let mut lengths = uniform(16, 1000);
    for row in 0..4 {
        lengths[row * 4].left = 1_000_000;
        lengths[row * 4 + 3].right = 1_000_000;
    }
    let graph = raster(4, 4, &[5, 6, 9, 10], &lengths);
    let mut state = AlgorithmState::new(16);
    let result = graph.dijkstra(0, 15, &mut state);
    assert_eq!(result.distance, Some(6000));
    assert_eq!(result.path.as_ref().unwrap().len(), 7);
    check_route(&graph, 0, 15, &result);
    assert!(result.heap_pops >= 1);
}

#[test]
fn dijkstra_uses_the_wrap_where_it_is_shorter() {
    let graph = raster(4, 4, &[5, 6, 9, 10], &uniform(16, 1000));
    let mut state = AlgorithmState::new(16);
    let result = graph.dijkstra(0, 15, &mut state);
    assert_eq!(result.distance, Some(4000));
    assert_eq!(result.path.as_ref().unwrap().len(), 5);
    check_route(&graph, 0, 15, &result);
}

#[test]
fn search_between_land_cells_finds_nothing() {
    let graph = raster(4, 4, &[5, 6, 9, 10], &uniform(16, 1000));
    let zeros = vec![0u32; 16];
    let mut state = AlgorithmState::new(16);
    let result = graph.dijkstra(5, 10, &mut state);
    assert!(result.path.is_none());
    assert!(result.distance.is_none());
    assert_eq!(result.heap_pops, 1);
    let result = graph.a_star(5, 10, &zeros, &mut state);
    assert!(result.path.is_none() && result.distance.is_none());
    assert_eq!(result.heap_pops, 1);
    let result = graph.bi_dijkstra(5, 10, &mut state);
    assert!(result.path.is_none() && result.distance.is_none());
    assert_eq!(result.heap_pops, 2);
    let result = graph.shortcut_a_star(5, 10, &zeros, &mut state);
    assert!(result.path.is_none() && result.distance.is_none());
    assert_eq!(result.heap_pops, 1);
    // From a land cell to itself the search ends at once, with the cell alone.
    let result = graph.dijkstra(5, 5, &mut state);
    assert_eq!(result.path, Some(vec![5]));
    assert_eq!(result.distance, Some(0));
    assert_eq!(result.heap_pops, 1);
}

#[test]
fn dijkstra_down_a_column_of_open_water() {
    let graph = raster(10, 10, &[], &uniform(100, 700));
    let mut state = AlgorithmState::new(100);
    let result = graph.dijkstra(0, 90, &mut state);
    assert_eq!(result.distance, Some(9 * 700));
    assert_eq!(result.path.as_ref().unwrap().len(), 10);
    check_route(&graph, 0, 90, &result);
}

#[test]
fn dijkstra_wraps_across_the_antimeridian() {
    let graph = raster(10, 10, &[], &uniform(100, 700));
    let mut state = AlgorithmState::new(100);
    let result = graph.dijkstra(50, 59, &mut state);
    assert_eq!(result.distance, Some(700));
    assert_eq!(result.path, Some(vec![59, 50]));
}

#[test]
fn dijkstra_to_itself_is_a_single_node() {
    let graph = raster(4, 4, &[], &uniform(16, 1000));
    let mut state = AlgorithmState::new(16);
    let result = graph.dijkstra(3, 3, &mut state);
    assert_eq!(result.distance, Some(0));
    assert_eq!(result.path, Some(vec![3]));
    assert_eq!(result.heap_pops, 1);
}

#[test]
fn path_runs_from_end_back_to_start() {
    let graph = raster(1, 5, &[], &uniform(5, 10));
    let mut state = AlgorithmState::new(5);
    let result = graph.dijkstra(0, 2, &mut state);
    assert_eq!(result.distance, Some(20));
    assert_eq!(result.path, Some(vec![2, 1, 0]));
}

#[test]
fn enclosed_sea_cannot_be_reached() {
    // Row 1 is land all the way round, so row 0 and row 2 are apart.
    let graph = raster(3, 4, &[4, 5, 6, 7], &uniform(12, 5));
    let zeros = vec![0u32; 12];
    let mut state = AlgorithmState::new(12);
    assert_eq!(graph.dijkstra(0, 8, &mut state).distance, None);
    assert_eq!(graph.bi_dijkstra(0, 8, &mut state).distance, None);
    assert_eq!(graph.a_star(0, 8, &zeros, &mut state).distance, None);
    assert_eq!(graph.dijkstra(0, 3, &mut state).distance, Some(5));
}

fn manual(offsets: Vec<u32>, edges: Vec<(u32, u32)>, rows: usize, cols: usize) -> Graph {
    Graph {
        offsets: offsets.into_iter().map(|o| (o, None)).collect(),
        edges: edges.into_iter().map(|(destination, distance)| Edge { destination, distance }).collect(),
        raster_columns_count: cols,
        raster_rows_count: rows,
        shortcut_rectangles: Vec::new(),
    }
}

#[test]
fn dijkstra_prefers_the_lighter_detour() {
    // 0 - 1 costs 10, 0 - 2 costs 1, 2 - 1 costs 2.
    let graph = manual(
        vec![0, 2, 4, 6],
        vec![(1, 10), (2, 1), (0, 10), (2, 2), (0, 1), (1, 2)],
        1,
        3,
    );
    assert!(graph.is_well_formed());
    assert!(graph.is_symmetric());
    let mut state = AlgorithmState::new(3);
    let result = graph.dijkstra(0, 1, &mut state);
    assert_eq!(result.distance, Some(3));
    assert_eq!(result.path, Some(vec![1, 2, 0]));
    let result = graph.bi_dijkstra(0, 1, &mut state);
    assert_eq!(result.distance, Some(3));
    assert_eq!(result.path, Some(vec![1, 2, 0]));
    let result = graph.a_star(0, 1, &vec![3, 0, 2], &mut state);
    assert_eq!(result.distance, Some(3));
    assert_eq!(result.path, Some(vec![1, 2, 0]));
}

#[test]
fn distances_near_the_unreached_value_do_not_wrap_around() {
    // The only route is longer than a distance can hold: it counts as none.
    let graph = manual(
        vec![0, 1, 3, 4],
        vec![(1, 4_000_000_000), (0, 4_000_000_000), (2, 4_000_000_000), (1, 4_000_000_000)],
        1,
        3,
    );
    let mut state = AlgorithmState::new(3);
    assert_eq!(graph.dijkstra(0, 1, &mut state).distance, Some(4_000_000_000));
    assert_eq!(graph.dijkstra(0, 2, &mut state).distance, None);
    assert_eq!(graph.bi_dijkstra(0, 2, &mut state).distance, None);
    assert_eq!(graph.a_star(0, 2, &vec![0, 0, 0], &mut state).distance, None);
}

#[test]
fn a_star_key_is_held_at_the_unreached_value() {
    let graph = manual(vec![0, 1, 2], vec![(1, 7), (0, 7)], 1, 2);
    let mut state = AlgorithmState::new(2);
    let result = graph.a_star(0, 1, &vec![u32::MAX, u32::MAX], &mut state);
    assert_eq!(result.distance, Some(7));
    assert_eq!(result.path, Some(vec![1, 0]));
}

#[test]
fn variants_agree_on_random_pairs() {
    let mut seed: u32 = 2024;
    let mut next = move |bound: u32| {
        seed = seed.wrapping_mul(1103515245).wrapping_add(12345);
        (seed >> 8) % bound
    };
    let mut lengths = Vec::new();
    for _ in 0..100 {
        lengths.push(StepLengths { top: 0, bottom: 0, right: 0, left: 0 });
    }
    // Lengths that match in both directions: east/west by row, north/south by row.
    for row in 0..10usize {
        let east = 100 + next(900);
        let south = 100 + next(900);
        for col in 0..10usize {
            let i = row * 10 + col;
            lengths[i].right = east;
            lengths[i].left = east;
            lengths[i].bottom = south;
            if row + 1 < 10 {
                lengths[i + 10].top = south;
            }
        }
    }
    let mut land = Vec::new();
    for cell in 0..100usize {
        if next(5) == 0 {
            land.push(cell);
        }
    }
    let graph = raster(10, 10, &land, &lengths);
    assert!(graph.is_well_formed());
    assert!(graph.is_symmetric());
    let zeros = vec![0u32; 100];
    let mut state = AlgorithmState::new(100);
    let mut found = 0;
    for _ in 0..20 {
        let s = next(100) as usize;
        let mut t = next(100) as usize;
        if s == t {
            t = (t + 1) % 100;
        }
        let by_dijkstra = graph.dijkstra(s, t, &mut state);
        let by_a_star = graph.a_star(s, t, &zeros, &mut state);
        let by_bi = graph.bi_dijkstra(s, t, &mut state);
        let back = graph.dijkstra(t, s, &mut state);
        assert_eq!(by_dijkstra.distance, by_a_star.distance);
        assert_eq!(by_dijkstra.distance, by_bi.distance);
        assert_eq!(by_dijkstra.distance, back.distance);
        if by_dijkstra.distance.is_some() {
            found += 1;
            check_route(&graph, s, t, &by_dijkstra);
            check_route(&graph, s, t, &by_a_star);
            check_route(&graph, s, t, &by_bi);
        }
    }
    assert!(found > 0);
}

#[test]
fn triangle_inequality_on_a_route() {
    let graph = raster(6, 6, &[8, 14, 20], &uniform(36, 50));
    let mut state = AlgorithmState::new(36);
    let result = graph.dijkstra(6, 9, &mut state);
    assert_eq!(result.distance, Some(150));
    let path = result.path.unwrap();
    assert_eq!(path.len(), 4);
    for triple in path.windows(3) {
        let direct = graph.dijkstra(triple[2], triple[0], &mut state).distance.unwrap();
        let first = graph.dijkstra(triple[2], triple[1], &mut state).distance.unwrap();
        let second = graph.dijkstra(triple[1], triple[0], &mut state).distance.unwrap();
        assert!(direct <= first + second);
    }
}

#[test]
fn a_star_with_a_misleading_estimate_still_finds_a_route() {
    let graph = manual(
        vec![0, 2, 4, 6],
        vec![(1, 10), (2, 1), (0, 10), (2, 2), (0, 1), (1, 2)],
        1,
        3,
    );
    let mut state = AlgorithmState::new(3);
    let result = graph.a_star(0, 1, &vec![0, 0, 1000], &mut state);
    assert_eq!(result.distance, Some(10));
    assert_eq!(result.path, Some(vec![1, 0]));
}

#[test]
fn bi_dijkstra_counts_two_pops_a_round() {
    let graph = manual(vec![0, 1, 2], vec![(1, 7), (0, 7)], 1, 2);
    let mut state = AlgorithmState::new(2);
    let result = graph.bi_dijkstra(0, 1, &mut state);
    assert_eq!(result.distance, Some(7));
    assert_eq!(result.path, Some(vec![1, 0]));
    assert_eq!(result.heap_pops, 4);
}

#[test]
fn is_node_inside_rect_is_strict() {
    let graph = raster(5, 5, &[], &uniform(25, 1));
    let rect = (1, 1, 3, 3);
    assert!(graph.is_node_inside_rect(12, &rect));
    assert!(!graph.is_node_inside_rect(6, &rect));
    assert!(!graph.is_node_inside_rect(7, &rect));
    assert!(!graph.is_node_inside_rect(11, &rect));
    assert!(!graph.is_node_inside_rect(13, &rect));
    assert!(!graph.is_node_inside_rect(18, &rect));
    assert!(!graph.is_node_inside_rect(0, &rect));
}

#[test]
fn well_formedness_is_checked() {
    let good = manual(vec![0, 1, 2], vec![(1, 7), (0, 7)], 1, 2);
    assert!(good.is_well_formed());
    let not_monotone = manual(vec![1, 0, 2], vec![(1, 7), (0, 7)], 1, 2);
    assert!(!not_monotone.is_well_formed());
    let bad_sentinel = manual(vec![0, 1, 1], vec![(1, 7), (0, 7)], 1, 2);
    assert!(!bad_sentinel.is_well_formed());
    let bad_destination = manual(vec![0, 1, 2], vec![(2, 7), (0, 7)], 1, 2);
    assert!(!bad_destination.is_well_formed());
    let bad_raster = manual(vec![0, 1, 2], vec![(1, 7), (0, 7)], 2, 2);
    assert!(!bad_raster.is_well_formed());
    let no_sentinel = manual(vec![], vec![], 0, 0);
    assert!(!no_sentinel.is_well_formed());
    let one_way = manual(vec![0, 1, 1], vec![(1, 7)], 1, 2);
    assert!(one_way.is_well_formed());
    assert!(!one_way.is_symmetric());
    let uneven = manual(vec![0, 1, 2], vec![(1, 7), (0, 8)], 1, 2);
    assert!(!uneven.is_symmetric());
}

#[test]
fn bi_dijkstra_from_a_node_to_itself_is_that_node() {
    let graph = manual(vec![0, 1, 2], vec![(1, 7), (0, 7)], 1, 2);
    let mut state = AlgorithmState::new(2);
    let result = graph.bi_dijkstra(0, 0, &mut state);
    assert_eq!(result.distance, Some(0));
    assert_eq!(result.path, Some(vec![0]));
    assert_eq!(result.heap_pops, 2);
    let lonely = manual(vec![0, 0], vec![], 1, 1);
    let mut state = AlgorithmState::new(1);
    let result = lonely.bi_dijkstra(0, 0, &mut state);
    assert_eq!(result.distance, Some(0));
    assert_eq!(result.path, Some(vec![0]));
    let by_dijkstra = lonely.dijkstra(0, 0, &mut state);
    assert_eq!(by_dijkstra.distance, result.distance);
    assert_eq!(by_dijkstra.path, result.path);
}

fn five_nodes() -> Graph {
    manual(
        vec![0, 2, 4, 6, 8, 10],
        vec![(1, 4), (2, 3), (0, 4), (4, 5), (0, 3), (3, 2), (2, 2), (4, 3), (1, 5), (3, 3)],
        1,
        5,
    )
}

#[test]
fn dijkstra_on_five_nodes_pops_five_times() {
    let graph = five_nodes();
    let mut state = AlgorithmState::new(5);
    let result = graph.dijkstra(0, 4, &mut state);
    assert_eq!(result.path, Some(vec![4, 3, 2, 0]));
    assert_eq!(result.distance, Some(8));
    assert_eq!(result.heap_pops, 5);
    let result = graph.dijkstra(2, 2, &mut state);
    assert_eq!(result.path, Some(vec![2]));
    assert_eq!(result.distance, Some(0));
    assert_eq!(result.heap_pops, 1);
}

#[test]
fn bi_dijkstra_on_five_nodes_pops_six_times() {
    let graph = five_nodes();
    let mut state = AlgorithmState::new(5);
    let result = graph.bi_dijkstra(0, 4, &mut state);
    assert_eq!(result.path, Some(vec![4, 3, 2, 0]));
    assert_eq!(result.distance, Some(8));
    assert_eq!(result.heap_pops, 6);
    let result = graph.bi_dijkstra(0, 0, &mut state);
    assert_eq!(result.path, Some(vec![0]));
    assert_eq!(result.distance, Some(0));
}

fn marked_nine() -> Graph {
    let w = 10806007;
    let mut graph = manual(
        vec![0, 0, 0, 0, 1, 3, 4, 4, 4, 4],
        vec![(4, w), (3, w), (5, w), (4, w)],
        3,
        3,
    );
    graph.offsets[4].1 = Some(0);
    graph.shortcut_rectangles = vec![(0, 0, 2, 2)];
    graph
}

#[test]
fn shortcut_a_star_stops_before_a_foreign_interior() {
    let graph = marked_nine();
    let zeros = vec![0u32; 9];
    let mut state = AlgorithmState::new(9);
    let result = graph.shortcut_a_star(3, 5, &zeros, &mut state);
    assert_eq!(result.path, None);
    assert_eq!(result.distance, None);
    assert_eq!(result.heap_pops, 1);
    let result = graph.a_star(3, 5, &zeros, &mut state);
    assert_eq!(result.path, Some(vec![5, 4, 3]));
    assert_eq!(result.distance, Some(21612014));
    assert_eq!(result.heap_pops, 3);
    // From inside the rectangle the interior is open.
    let result = graph.shortcut_a_star(4, 5, &zeros, &mut state);
    assert_eq!(result.distance, Some(10806007));
}

#[test]
fn a_star_leaves_the_far_node_in_the_queue() {
    let d = 10007543;
    let graph = manual(
        vec![0, 0, 0, 0, 0, 2, 4, 6, 8],
        vec![(5, d), (7, d), (4, d), (6, d), (5, d), (7, d), (4, d), (6, d)],
        2,
        4,
    );
    let heuristic = vec![0, 0, 0, 0, d, 0, d, 20015086];
    assert!(graph.is_consistent(&heuristic, 5));
    let mut state = AlgorithmState::new(8);
    let result = graph.a_star(4, 5, &heuristic, &mut state);
    assert_eq!(result.path, Some(vec![5, 4]));
    assert_eq!(result.distance, Some(d));
    assert_eq!(result.heap_pops, 2);
}

#[test]
fn consistency_of_an_estimate_is_checked() {
    let graph = five_nodes();
    assert!(graph.is_consistent(&vec![0; 5], 4));
    assert!(graph.is_consistent(&vec![8, 5, 5, 3, 0], 4));
    assert!(!graph.is_consistent(&vec![9, 5, 5, 3, 0], 4));
    assert!(!graph.is_consistent(&vec![0, 0, 0, 0, 1], 4));
    assert!(!graph.is_consistent(&vec![0; 4], 4));
}

#[test]
fn route_passes_no_node_twice_where_edges_are_free() {
    // A ring of four nodes with edges of length 0 and a tail of length 5.
    let graph = manual(
        vec![0, 2, 4, 7, 9, 10],
        vec![(1, 0), (3, 0), (0, 0), (2, 0), (1, 0), (3, 0), (4, 5), (2, 0), (0, 0), (2, 5)],
        1,
        5,
    );
    assert!(graph.is_well_formed());
    assert!(graph.is_symmetric());
    let zeros = vec![0u32; 5];
    let mut state = AlgorithmState::new(5);
    for (s, t) in [(0usize, 4usize), (1, 4), (3, 4), (4, 0), (0, 2), (3, 1)] {
        for result in [
            graph.dijkstra(s, t, &mut state),
            graph.a_star(s, t, &zeros, &mut state),
            graph.shortcut_a_star(s, t, &zeros, &mut state),
            graph.bi_dijkstra(s, t, &mut state),
        ] {
            let path = result.path.unwrap();
            let mut seen = path.clone();
            seen.sort();
            seen.dedup();
            assert_eq!(seen.len(), path.len());
            assert_eq!(result.distance, Some(if s == 4 || t == 4 { 5 } else { 0 }));
        }
    }
}

#[test]
fn two_runs_on_different_states_return_the_same() {
    let graph = raster(6, 6, &[8, 14, 20], &uniform(36, 50));
    let mut fresh = AlgorithmState::new(36);
    let mut used = AlgorithmState::new(36);
    graph.bi_dijkstra(3, 30, &mut used);
    graph.dijkstra(35, 1, &mut used);
    for (s, t) in [(6usize, 9usize), (0, 35), (12, 17)] {
        let one = graph.dijkstra(s, t, &mut fresh);
        let other = graph.dijkstra(s, t, &mut used);
        assert_eq!(one.path, other.path);
        assert_eq!(one.distance, other.distance);
        assert_eq!(one.heap_pops, other.heap_pops);
        let one = graph.bi_dijkstra(s, t, &mut fresh);
        let other = graph.bi_dijkstra(s, t, &mut used);
        assert_eq!(one.path, other.path);
        assert_eq!(one.distance, other.distance);
        assert_eq!(one.heap_pops, other.heap_pops);
    }
}

#[test]
fn without_rectangles_shortcut_a_star_is_a_star() {
    let graph = raster(5, 5, &[7, 12], &uniform(25, 9));
    let zeros = vec![0u32; 25];
    let mut state = AlgorithmState::new(25);
    for (s, t) in [(0usize, 24usize), (6, 8), (2, 22)] {
        let plain = graph.a_star(s, t, &zeros, &mut state);
        let pruned = graph.shortcut_a_star(s, t, &zeros, &mut state);
        assert_eq!(plain.path, pruned.path);
        assert_eq!(plain.distance, pruned.distance);
        assert_eq!(plain.heap_pops, pruned.heap_pops);
    }
}

#[test]
fn a_marked_node_opens_for_its_own_rectangle_only() {
    // Node 12 is the only way between the upper and the lower rows. It lies
    // inside both rectangles; the start lies inside the second only.
    let mut graph = raster(5, 5, &[10, 11, 13, 14], &uniform(25, 10));
    graph.shortcut_rectangles = vec![(1, 1, 3, 3), (0, 0, 4, 4)];
    let zeros = vec![0u32; 25];
    let mut state = AlgorithmState::new(25);
    graph.offsets[12].1 = Some(0);
    let result = graph.shortcut_a_star(6, 18, &zeros, &mut state);
    assert_eq!(result.distance, None);
    assert_eq!(result.path, None);
    let result = graph.a_star(6, 18, &zeros, &mut state);
    assert_eq!(result.distance, Some(40));
    // An endpoint inside the node's own rectangle opens it.
    let result = graph.shortcut_a_star(6, 12, &zeros, &mut state);
    assert_eq!(result.distance, Some(20));
    let result = graph.shortcut_a_star(12, 18, &zeros, &mut state);
    assert_eq!(result.distance, Some(20));
    // Marked with the second rectangle, the node is open for a start inside that one.
    graph.offsets[12].1 = Some(1);
    let result = graph.shortcut_a_star(6, 18, &zeros, &mut state);
    assert_eq!(result.distance, Some(40));
    assert_eq!(result.path, Some(vec![18, 17, 12, 7, 6]));
}

#[test]
fn search_runs_the_named_variant() {
    let graph = raster(4, 4, &[5, 6, 9, 10], &uniform(16, 1000));
    let zeros = vec![0u32; 16];
    let mut state = AlgorithmState::new(16);
    for variant in [
        ExecutionType::Dijkstra,
        ExecutionType::BiDijkstra,
        ExecutionType::AStar,
        ExecutionType::ShortcutAStar,
    ] {
        let result = graph.search(&variant, 0, 15, &zeros, &mut state);
        assert_eq!(result.distance, Some(4000));
        check_route(&graph, 0, 15, &result);
    }
    let result = graph.search(&ExecutionType::Dijkstra, 3, 3, &Vec::new(), &mut state);
    assert_eq!(result.distance, Some(0));
}

#[test]
fn state_is_reused_between_searches() {
    let graph = raster(5, 5, &[12], &uniform(25, 3));
    let mut state = AlgorithmState::new(25);
    let first = graph.dijkstra(0, 24, &mut state).distance;
    let other = graph.bi_dijkstra(7, 18, &mut state).distance;
    let again = graph.dijkstra(0, 24, &mut state).distance;
    assert_eq!(first, again);
    assert!(other.is_some());
    assert_eq!(state.distances.len(), 25);
    assert_eq!(state.distances2.len(), 25);
}
