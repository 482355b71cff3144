use route::crossing::are_apart;
use route::overlay::{find_colliding_rect, sort_by_destination};
use route::{AlgorithmState, Edge, Graph, Nodes, OverlayError, Shortcut, StepLengths};

fn raster(rows: usize, cols: usize, land: &[usize], length: u32) -> Graph {
    let mut nodes = Nodes::new_generate_not_equally_distributed(rows, cols);
    for cell in land {
        nodes.nodes[*cell].is_water = false;
    }
    let lengths =
        vec![StepLengths { top: length, bottom: length, right: length, left: length }; rows * cols];
    Graph::new_from_nodes(&nodes, &lengths, cols, rows)
}

fn edges_of(graph: &Graph, node: usize) -> Vec<Edge> {
    graph.edges[graph.offsets[node].0 as usize..graph.offsets[node + 1].0 as usize].to_vec()
}

#[test]
fn sort_orders_by_destination_and_then_by_length() {
    let mut list = vec![
        Edge { destination: 5, distance: 1 },
        Edge { destination: 2, distance: 9 },
        Edge { destination: 5, distance: 0 },
        Edge { destination: 1, distance: 4 },
        Edge { destination: 2, distance: 3 },
        Edge { destination: 2, distance: 3 },
    ];
    sort_by_destination(&mut list);
    assert_eq!(
        list,
        vec![
            Edge { destination: 1, distance: 4 },
            Edge { destination: 2, distance: 3 },
            Edge { destination: 2, distance: 3 },
            Edge { destination: 2, distance: 9 },
            Edge { destination: 5, distance: 0 },
            Edge { destination: 5, distance: 1 },
        ]
    );
}

#[test]
fn colliding_rect_is_the_first_that_overlaps() {
    let rects = vec![(0, 0, 2, 2), (5, 5, 9, 9), (4, 4, 6, 6)];
    assert_eq!(find_colliding_rect(&rects, (5, 5, 5, 5)), Some(2));
    assert_eq!(find_colliding_rect(&rects, (7, 7, 7, 7)), Some(1));
    assert_eq!(find_colliding_rect(&rects, (9, 9, 9, 9)), None);
    assert_eq!(find_colliding_rect(&rects, (5, 5, 6, 6)), Some(1));
    assert_eq!(find_colliding_rect(&rects, (3, 3, 5, 5)), Some(2));
    assert_eq!(find_colliding_rect(&rects, (2, 2, 4, 4)), None);
    assert_eq!(find_colliding_rect(&rects, (1, 1, 3, 3)), Some(0));
    assert_eq!(find_colliding_rect(&Vec::new(), (1, 1, 3, 3)), None);
}

#[test]
fn shortcut_is_recorded_with_the_shortest_distance() {
    let graph = raster(5, 5, &[], 10);
    let mut state = AlgorithmState::new(25);
    let mut shortcuts = Vec::new();
    assert_eq!(graph.add_edges(&mut shortcuts, 6, 18, &mut state), Ok(()));
    assert_eq!(graph.add_edges(&mut shortcuts, 6, 6, &mut state), Ok(()));
    assert_eq!(shortcuts, vec![Shortcut { from: 6, to: 18, distance: 40 }]);
}

#[test]
fn shortcut_to_land_fails() {
    let graph = raster(5, 5, &[12], 10);
    let mut state = AlgorithmState::new(25);
    let mut shortcuts = Vec::new();
    assert_eq!(
        graph.add_edges(&mut shortcuts, 6, 12, &mut state),
        Err(OverlayError::NoPath(6, 12))
    );
    assert!(shortcuts.is_empty());
}

#[test]
fn rect_shortcuts_join_every_two_border_cells() {
    let graph = raster(5, 5, &[], 10);
    let mut state = AlgorithmState::new(25);
    let mut shortcuts = Vec::new();
    // Rectangle of two columns and two rows: its border is 6, 11, 7, 12.
    assert_eq!(graph.rect_shortcuts(&(1, 1, 2, 2), &mut shortcuts, &mut state), Ok(()));
    let pairs: Vec<(usize, usize)> = shortcuts.iter().map(|s| (s.from, s.to)).collect();
    assert_eq!(pairs, vec![(6, 11), (6, 7), (6, 12), (11, 7), (11, 12), (7, 12)]);
    for s in &shortcuts {
        let mut fresh = AlgorithmState::new(25);
        assert_eq!(Some(s.distance), graph.dijkstra(s.from, s.to, &mut fresh).distance);
    }
}

#[test]
fn rect_shortcuts_walk_the_border_once() {
    let graph = raster(6, 6, &[], 10);
    let mut state = AlgorithmState::new(36);
    let border_of = |rect: (usize, usize, usize, usize), state: &mut AlgorithmState| {
        let mut shortcuts = Vec::new();
        assert_eq!(graph.rect_shortcuts(&rect, &mut shortcuts, state), Ok(()));
        let mut cells: Vec<usize> = Vec::new();
        for s in &shortcuts {
            assert_ne!(s.from, s.to);
            for cell in [s.from, s.to] {
                if !cells.contains(&cell) {
                    cells.push(cell);
                }
            }
        }
        // Every two cells are joined once, whichever way round.
        let mut seen: Vec<(usize, usize)> =
            shortcuts.iter().map(|s| (s.from.min(s.to), s.from.max(s.to))).collect();
        seen.sort();
        let all = seen.len();
        seen.dedup();
        assert_eq!(seen.len(), all);
        assert_eq!(all, cells.len() * cells.len().saturating_sub(1) / 2);
        cells
    };
    // Three columns and three rows: down the left side, along the top,
    // down the right side, along the bottom between the corners.
    assert_eq!(border_of((1, 1, 3, 3), &mut state), vec![7, 13, 19, 8, 9, 15, 21, 20]);
    // One column only.
    assert_eq!(border_of((2, 1, 2, 3), &mut state), vec![8, 14, 20]);
    // One row only.
    assert_eq!(border_of((1, 2, 4, 2), &mut state), vec![13, 14, 15, 16]);
    // Two columns: the bottom side has nothing between its corners.
    assert_eq!(border_of((1, 1, 2, 3), &mut state), vec![7, 13, 19, 8, 14, 20]);
    // A single cell has nothing to be joined with.
    assert!(border_of((2, 2, 2, 2), &mut state).is_empty());
}

#[test]
fn cells_on_one_side_get_a_shortcut() {
    // Two columns and five rows of water; the rectangle is the whole raster.
    // Cells 2 and 6 lie on its left side, two steps apart.
    let graph = raster(5, 2, &[], 10);
    let overlay = graph.create_graph(&vec![(0, 0, 1, 4)]).ok().unwrap();
    assert!(overlay.is_well_formed());
    assert!(overlay.is_symmetric());
    let from_2: Vec<Edge> = edges_of(&overlay, 2).into_iter().filter(|e| e.destination == 6).collect();
    assert_eq!(from_2, vec![Edge { destination: 6, distance: 20 }]);
    let from_6: Vec<Edge> = edges_of(&overlay, 6).into_iter().filter(|e| e.destination == 2).collect();
    assert_eq!(from_6, vec![Edge { destination: 2, distance: 20 }]);
    assert!(edges_of(&graph, 2).iter().all(|e| e.destination != 6));
    // All ten cells are border cells: 45 pairs, an edge each way.
    assert_eq!(overlay.edges.len(), graph.edges.len() + 90);
}

#[test]
fn overlay_adds_edges_both_ways_and_sorts_them() {
    let graph = raster(3, 3, &[], 10);
    let shortcuts = vec![Shortcut { from: 0, to: 8, distance: 20 }];
    let overlay = graph.create_graph_with(&vec![(0, 0, 2, 2)], &shortcuts).ok().unwrap();
    assert!(overlay.is_well_formed());
    assert_eq!(overlay.raster_columns_count, 3);
    assert_eq!(overlay.raster_rows_count, 3);
    assert_eq!(overlay.shortcut_rectangles, vec![(0, 0, 2, 2)]);
    assert_eq!(
        edges_of(&overlay, 0),
        vec![
            Edge { destination: 1, distance: 10 },
            Edge { destination: 2, distance: 10 },
            Edge { destination: 3, distance: 10 },
            Edge { destination: 8, distance: 20 },
        ]
    );
    assert_eq!(
        edges_of(&overlay, 8),
        vec![
            Edge { destination: 0, distance: 20 },
            Edge { destination: 5, distance: 10 },
            Edge { destination: 6, distance: 10 },
            Edge { destination: 7, distance: 10 },
        ]
    );
    assert_eq!(edges_of(&overlay, 4).len(), 4);
    assert_eq!(overlay.edges.len(), graph.edges.len() + 2);
}

#[test]
fn overlay_marks_the_interior_of_each_rectangle() {
    let graph = raster(6, 6, &[], 10);
    let rects = vec![(0, 0, 2, 2), (2, 2, 5, 5)];
    let overlay = graph.create_graph(&rects).ok().unwrap();
    assert!(overlay.is_well_formed());
    for node in 0..36usize {
        let col = node % 6;
        let row = node / 6;
        let expected = if col == 1 && row == 1 {
            Some(0)
        } else if col > 2 && col < 5 && row > 2 && row < 5 {
            Some(1)
        } else {
            None
        };
        assert_eq!(overlay.offsets[node].1, expected);
    }
    assert_eq!(overlay.offsets[36].1, None);
}

#[test]
fn first_rectangle_wins_where_two_overlap() {
    let graph = raster(6, 6, &[], 10);
    let rects = vec![(0, 0, 3, 3), (1, 1, 4, 4)];
    let overlay = graph.create_graph_with(&rects, &Vec::new()).ok().unwrap();
    assert_eq!(overlay.offsets[14].1, Some(0));
    assert_eq!(overlay.offsets[21].1, Some(1));
}

#[test]
fn overlay_keeps_the_distances_of_the_base_graph() {
    let graph = raster(8, 8, &[27, 28], 10);
    let rects = vec![(1, 1, 5, 2), (0, 4, 3, 7)];
    let overlay = graph.create_graph(&rects).ok().unwrap();
    assert!(overlay.is_well_formed());
    assert!(overlay.edges.len() > graph.edges.len());
    let zeros = vec![0u32; 64];
    let mut state = AlgorithmState::new(64);
    for (s, t) in [(0usize, 63usize), (9, 54), (16, 47), (3, 60), (10, 13)] {
        let base = graph.dijkstra(s, t, &mut state).distance;
        assert_eq!(overlay.dijkstra(s, t, &mut state).distance, base);
        assert_eq!(overlay.shortcut_a_star(s, t, &zeros, &mut state).distance, base);
    }
}

#[test]
fn shortcut_a_star_keeps_out_of_foreign_interiors() {
    // A corridor of one row; the middle cell is marked as interior of a
    // rectangle that holds neither endpoint.
    let graph = raster(1, 7, &[], 10);
    let mut overlay = graph.create_graph_with(&vec![(2, 0, 4, 0)], &Vec::new()).ok().unwrap();
    overlay.offsets[3].1 = Some(0);
    let zeros = vec![0u32; 7];
    let mut state = AlgorithmState::new(7);
    // Dijkstra goes straight through; the shortcut search goes the other way round.
    assert_eq!(overlay.dijkstra(2, 4, &mut state).distance, Some(20));
    assert_eq!(overlay.shortcut_a_star(2, 4, &zeros, &mut state).distance, Some(50));
    // Into the interior it never goes unless an endpoint lies there.
    assert_eq!(overlay.shortcut_a_star(2, 3, &zeros, &mut state).distance, None);
}

#[test]
fn rectangle_outside_the_raster_is_refused() {
    let graph = raster(4, 4, &[], 10);
    assert!(matches!(
        graph.create_graph(&vec![(0, 0, 1, 1), (0, 0, 4, 1)]),
        Err(OverlayError::OutOfRaster(1))
    ));
    assert!(matches!(
        graph.create_graph(&vec![(2, 0, 1, 1)]),
        Err(OverlayError::OutOfRaster(0))
    ));
    assert!(matches!(
        graph.create_graph(&vec![(0, 0, 1, 4)]),
        Err(OverlayError::OutOfRaster(0))
    ));
}

#[test]
fn border_cell_on_land_is_reported() {
    let graph = raster(4, 4, &[5], 10);
    assert!(matches!(
        graph.create_graph(&vec![(1, 1, 2, 2)]),
        Err(OverlayError::NoPath(5, 9))
    ));
}

#[test]
fn no_rectangle_gives_a_sorted_copy() {
    let graph = raster(3, 3, &[4], 10);
    let overlay = graph.create_graph(&Vec::new()).ok().unwrap();
    assert_eq!(overlay.offsets, graph.offsets);
    assert_eq!(overlay.edges.len(), graph.edges.len());
    for node in 0..9 {
        let mut expected = edges_of(&graph, node);
        expected.sort_by_key(|e| (e.destination, e.distance));
        assert_eq!(edges_of(&overlay, node), expected);
    }
}

#[test]
fn rectangle_grows_until_land_stops_it() {
    // 7 x 7 raster with a frame of land one cell in from the border.
    let mut land = Vec::new();
    for k in 1..6 {
        land.push(7 + k);
        land.push(5 * 7 + k);
        land.push(k * 7 + 1);
        land.push(k * 7 + 5);
    }
    let graph = raster(7, 7, &land, 10);
    let mut placed = Vec::new();
    graph.place_rectangle(&mut placed, 3 * 7 + 3);
    assert_eq!(placed, vec![(2, 2, 4, 4)]);
}

#[test]
fn rectangle_stops_at_the_border_of_the_raster() {
    let graph = raster(4, 5, &[], 10);
    let mut placed = Vec::new();
    graph.place_rectangle(&mut placed, 7);
    assert_eq!(placed, vec![(0, 0, 4, 3)]);
}

#[test]
fn click_into_a_rectangle_removes_it() {
    let graph = raster(6, 6, &[], 10);
    let mut placed = vec![(0, 0, 2, 2), (3, 3, 5, 5)];
    graph.place_rectangle(&mut placed, 4 * 6 + 4);
    assert_eq!(placed, vec![(0, 0, 2, 2)]);
}

#[test]
fn rectangle_keeps_clear_of_placed_ones() {
    let graph = raster(6, 6, &[], 10);
    let mut placed = vec![(0, 0, 2, 5)];
    graph.place_rectangle(&mut placed, 2 * 6 + 4);
    assert_eq!(placed, vec![(0, 0, 2, 5), (2, 0, 5, 5)]);
}

#[test]
fn rectangle_of_one_column_is_not_placed() {
    // Column 2 is water between two columns of land.
    let land: Vec<usize> = (0..5).flat_map(|row| [row * 5 + 1, row * 5 + 3]).collect();
    let graph = raster(5, 5, &land, 10);
    let mut placed = Vec::new();
    graph.place_rectangle(&mut placed, 2 * 5 + 2);
    assert!(placed.is_empty());
}

#[test]
fn turns_decide_between_two_rectangles_that_cannot_grow() {
    // Water is a bar of columns 1 to 4 in rows 2 and 3, crossed by a bar of
    // columns 2 and 3 in rows 1 to 4. Either bar is a rectangle that cannot
    // grow; the turn to the west comes first, so the wide one is placed.
    let mut land = Vec::new();
    for row in 0..6 {
        for col in 0..6 {
            let wide = (1..=4).contains(&col) && (2..=3).contains(&row);
            let high = (2..=3).contains(&col) && (1..=4).contains(&row);
            if !wide && !high {
                land.push(row * 6 + col);
            }
        }
    }
    let graph = raster(6, 6, &land, 10);
    let mut placed = Vec::new();
    graph.place_rectangle(&mut placed, 2 * 6 + 2);
    assert_eq!(placed, vec![(1, 2, 4, 3)]);
}

#[test]
fn search_crosses_a_rectangle_between_two_cells_of_one_side() {
    // Seven rows of six columns. Column 0 is land in rows 2 to 4, and the
    // steps down column 1 between rows 2 and 4 are long, so the shortest
    // way from cell (1, 2) to cell (1, 4) leads through the interior of
    // the rectangle (1, 1, 4, 5), on whose left side both cells lie.
    let rows = 7;
    let cols = 6;
    let mut nodes = Nodes::new_generate_not_equally_distributed(rows, cols);
    for cell in [12, 18, 24] {
        nodes.nodes[cell].is_water = false;
    }
    let mut lengths = vec![StepLengths { top: 10, bottom: 10, right: 10, left: 10 }; rows * cols];
    lengths[2 * cols + 1].bottom = 100;
    lengths[3 * cols + 1].top = 100;
    lengths[3 * cols + 1].bottom = 100;
    lengths[4 * cols + 1].top = 100;
    let graph = Graph::new_from_nodes(&nodes, &lengths, cols, rows);
    assert!(graph.is_well_formed());
    assert!(graph.is_symmetric());
    assert!(graph.has_steps_only());
    let rects = vec![(1, 1, 4, 5)];
    assert!(are_apart(&rects));
    let overlay = graph.create_graph(&rects).ok().unwrap();
    let (a, b) = (2 * cols + 1, 4 * cols + 1);
    let zeros = vec![0u32; rows * cols];
    let mut state = AlgorithmState::new(rows * cols);
    assert_eq!(graph.dijkstra(a, b, &mut state).distance, Some(40));
    assert!(edges_of(&overlay, a).contains(&Edge { destination: b as u32, distance: 40 }));
    let pruned = overlay.shortcut_a_star(a, b, &zeros, &mut state);
    assert_eq!(pruned.distance, Some(40));
    assert_eq!(pruned.path, Some(vec![b, a]));
    // Every search on the overlay that keeps out of the interior finds the
    // shortest distance of the graph underneath.
    for s in 0..rows * cols {
        for t in [0usize, 7, 13, 25, 29, 41] {
            let base = graph.dijkstra(s, t, &mut state).distance;
            assert_eq!(overlay.shortcut_a_star(s, t, &zeros, &mut state).distance, base);
        }
    }
}

#[test]
fn rectangles_apart_are_told_from_overlapping_ones() {
    assert!(are_apart(&Vec::new()));
    assert!(are_apart(&vec![(0, 0, 2, 2)]));
    // Sharing a side is no overlap.
    assert!(are_apart(&vec![(0, 0, 2, 5), (2, 0, 5, 5), (0, 5, 5, 7)]));
    assert!(!are_apart(&vec![(0, 0, 3, 3), (4, 4, 6, 6), (2, 2, 5, 5)]));
    assert!(!are_apart(&vec![(1, 1, 4, 4), (1, 1, 4, 4)]));
}

#[test]
fn placing_keeps_rectangles_apart() {
    let graph = raster(8, 8, &[27, 36], 10);
    let mut placed = Vec::new();
    for click in [9usize, 62, 20, 45, 9, 33, 58] {
        graph.place_rectangle(&mut placed, click);
        assert!(are_apart(&placed));
    }
}

#[test]
fn edges_that_are_no_steps_are_told() {
    let graph = raster(4, 4, &[5], 10);
    assert!(graph.has_steps_only());
    let overlay = graph.create_graph(&vec![(1, 2, 3, 3)]).ok().unwrap();
    // A shortcut joins cells that do not touch.
    assert!(!overlay.has_steps_only());
}

#[test]
fn overlapping_rectangles_may_cost_a_detour() {
    // Each rectangle has border cells inside the other, which are shut to a
    // search between two nodes outside both.
    let graph = raster(8, 20, &[], 10);
    let rects = vec![(0, 0, 4, 4), (2, 2, 6, 6)];
    assert!(!are_apart(&rects));
    let overlay = graph.create_graph(&rects).ok().unwrap();
    let zeros = vec![0u32; 160];
    let mut state = AlgorithmState::new(160);
    let (s, t) = (3 * 20, 3 * 20 + 6);
    assert_eq!(graph.dijkstra(s, t, &mut state).distance, Some(60));
    assert_eq!(overlay.dijkstra(s, t, &mut state).distance, Some(60));
    assert_eq!(overlay.shortcut_a_star(s, t, &zeros, &mut state).distance, Some(80));
}
