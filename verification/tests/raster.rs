use route::{Edge, Graph, Nodes, StepLengths};

fn uniform(count: usize, length: u32) -> Vec<StepLengths> {
    vec![StepLengths { top: length, bottom: length, right: length, left: length }; count]
}

fn open_water(rows: usize, cols: usize) -> Graph {
    let nodes = Nodes::new_generate_not_equally_distributed(rows, cols);
    Graph::new_from_nodes(&nodes, &uniform(rows * cols, 1), cols, rows)
}

fn edges_of(graph: &Graph, node: usize) -> Vec<Edge> {
    graph.edges[graph.offsets[node].0 as usize..graph.offsets[node + 1].0 as usize].to_vec()
}

#[test]
fn nodes_lie_on_the_raster() {
    let nodes = Nodes::new_generate_not_equally_distributed(4, 8);
    assert_eq!(nodes.nodes.len(), 32);
    assert!(nodes.nodes.iter().all(|n| n.is_water));
    assert_eq!(nodes.nodes[0].coordinate.lon, -1_800_000_000);
    assert_eq!(nodes.nodes[0].coordinate.lat, 900_000_000);
    assert_eq!(nodes.nodes[1].coordinate.lon, -1_350_000_000);
    assert_eq!(nodes.nodes[7].coordinate.lon, 1_350_000_000);
    assert_eq!(nodes.nodes[8].coordinate.lon, -1_800_000_000);
    assert_eq!(nodes.nodes[8].coordinate.lat, 450_000_000);
    assert_eq!(nodes.nodes[31].coordinate.lat, -450_000_000);
}

#[test]
fn steps_are_rounded_down() {
    // 360 degrees over 7 columns: 514285714 units and a rest.
    let nodes = Nodes::new_generate_not_equally_distributed(7, 7);
    assert_eq!(nodes.nodes[1].coordinate.lon, -1_800_000_000 + 514_285_714);
    assert_eq!(nodes.nodes[6].coordinate.lon, 1_285_714_284);
    assert_eq!(nodes.nodes[7].coordinate.lat, 900_000_000 - 257_142_857);
}

#[test]
fn graph_coordinates_match_the_nodes() {
    let nodes = Nodes::new_generate_not_equally_distributed(5, 9);
    let graph = open_water(5, 9);
    for (i, node) in nodes.nodes.iter().enumerate() {
        assert_eq!(graph.get_lon(i), node.coordinate.lon);
        assert_eq!(graph.get_lat(i), node.coordinate.lat);
    }
}

#[test]
fn coordinates_of_the_production_raster() {
    let graph = Graph {
        offsets: Vec::new(),
        edges: Vec::new(),
        raster_columns_count: 1250,
        raster_rows_count: 850,
        shortcut_rectangles: Vec::new(),
    };
    assert_eq!(graph.get_lon(0), -1_800_000_000);
    assert_eq!(graph.get_lon(1), -1_800_000_000 + 2_880_000);
    assert_eq!(graph.get_lon(1249), 1_797_120_000);
    assert_eq!(graph.get_lon(1250), -1_800_000_000);
    assert_eq!(graph.get_lat(0), 900_000_000);
    assert_eq!(graph.get_lat(1250), 900_000_000 - 2_117_647);
    assert_eq!(graph.get_lat(849 * 1250), -897_882_303);
}

#[test]
fn get_index_is_row_major() {
    let graph = open_water(3, 5);
    assert_eq!(graph.get_index(0, 0), 0);
    assert_eq!(graph.get_index(4, 0), 4);
    assert_eq!(graph.get_index(0, 1), 5);
    assert_eq!(graph.get_index(2, 2), 12);
}

#[test]
fn east_of_the_last_column_is_the_first() {
    let graph = open_water(3, 5);
    for row in 0..3 {
        assert_eq!(graph.get_neighbour_right(row * 5 + 4), row * 5);
        assert_eq!(graph.get_neighbour_left(row * 5), row * 5 + 4);
    }
    assert_eq!(graph.get_neighbour_right(6), 7);
    assert_eq!(graph.get_neighbour_left(6), 5);
}

#[test]
fn rows_do_not_wrap() {
    let graph = open_water(3, 5);
    assert_eq!(graph.get_neighbour_top(2), None);
    assert_eq!(graph.get_neighbour_bottom(2), Some(7));
    assert_eq!(graph.get_neighbour_top(7), Some(2));
    assert_eq!(graph.get_neighbour_bottom(7), Some(12));
    assert_eq!(graph.get_neighbour_bottom(12), None);
}

#[test]
fn neighbors_come_in_fixed_order() {
    let graph = open_water(3, 5);
    assert_eq!(graph.get_neighbors(7), vec![2, 12, 8, 6]);
    assert_eq!(graph.get_neighbors(0), vec![5, 1, 4]);
    assert_eq!(graph.get_neighbors(14), vec![9, 10, 13]);
}

#[test]
fn single_column_raster_wraps_onto_itself() {
    let graph = open_water(2, 1);
    assert_eq!(graph.get_neighbour_right(0), 0);
    assert_eq!(graph.get_neighbour_left(1), 1);
    assert_eq!(graph.get_neighbors(0), vec![1, 0, 0]);
}

#[test]
fn builder_gives_water_cells_edges_to_water_neighbours() {
    let mut nodes = Nodes::new_generate_not_equally_distributed(3, 3);
    nodes.nodes[4].is_water = false;
    nodes.nodes[1].is_water = false;
    let mut lengths = Vec::new();
    for i in 0..9u32 {
        lengths.push(StepLengths { top: 10 + i, bottom: 20 + i, right: 30 + i, left: 40 + i });
    }
    let graph = Graph::new_from_nodes(&nodes, &lengths, 3, 3);
    assert!(graph.is_well_formed());
    assert_eq!(graph.offsets.len(), 10);
    assert_eq!(graph.offsets[9].0 as usize, graph.edges.len());
    assert!(graph.offsets.iter().all(|o| o.1.is_none()));
    assert!(graph.shortcut_rectangles.is_empty());
    // Cell 0: below is 3 (water), east is 1 (land), west is 2 (water).
    assert_eq!(
        edges_of(&graph, 0),
        vec![Edge { destination: 3, distance: 20 }, Edge { destination: 2, distance: 40 }]
    );
    // Land has no edge.
    assert_eq!(edges_of(&graph, 1), vec![]);
    assert_eq!(edges_of(&graph, 4), vec![]);
    // Cell 3: above 0, below 6, east 4 (land), west 5.
    assert_eq!(
        edges_of(&graph, 3),
        vec![
            Edge { destination: 0, distance: 13 },
            Edge { destination: 6, distance: 23 },
            Edge { destination: 5, distance: 43 },
        ]
    );
    // Cell 7: above 4 (land), east 8, west 6.
    assert_eq!(
        edges_of(&graph, 7),
        vec![Edge { destination: 8, distance: 37 }, Edge { destination: 6, distance: 47 }]
    );
    assert!(graph.is_water(0));
    assert!(!graph.is_water(1));
    assert!(!graph.is_water(4));
}

#[test]
fn water_without_water_neighbours_counts_as_land() {
    let mut nodes = Nodes::new_generate_not_equally_distributed(1, 3);
    nodes.nodes[0].is_water = false;
    nodes.nodes[2].is_water = false;
    let graph = Graph::new_from_nodes(&nodes, &uniform(3, 1), 3, 1);
    assert!(!graph.is_water(1));
    assert_eq!(graph.edges.len(), 0);
}

#[test]
fn neighbours_in_water_skip_land() {
    let mut nodes = Nodes::new_generate_not_equally_distributed(3, 3);
    nodes.nodes[1].is_water = false;
    let graph = Graph::new_from_nodes(&nodes, &uniform(9, 1), 3, 3);
    assert_eq!(graph.get_neighbours_in_water(4), vec![7, 5, 3]);
    assert_eq!(graph.get_neighbours_in_water(0), vec![3, 2]);
}

#[test]
fn matching_steps_make_the_graph_undirected() {
    let mut nodes = Nodes::new_generate_not_equally_distributed(4, 4);
    nodes.nodes[5].is_water = false;
    let graph = Graph::new_from_nodes(&nodes, &uniform(16, 9), 4, 4);
    assert!(graph.is_symmetric());
    let mut lengths = uniform(16, 9);
    lengths[0].right = 8;
    let graph = Graph::new_from_nodes(&nodes, &lengths, 4, 4);
    assert!(!graph.is_symmetric());
}

#[test]
fn empty_raster_has_only_the_sentinel() {
    let nodes = Nodes { nodes: Vec::new() };
    let graph = Graph::new_from_nodes(&nodes, &Vec::new(), 0, 0);
    assert_eq!(graph.offsets, vec![(0, None)]);
    assert!(graph.edges.is_empty());
    assert!(graph.is_well_formed());
}
