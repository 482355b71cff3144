use route::{Coasts, Coordinate, Graph, Node, Nodes, StepLengths};

fn at(lon: i32, lat: i32) -> Coordinate {
    Coordinate { lon, lat }
}

#[test]
fn rectangle_outlines_are_closed_rings() {
    let nodes = Nodes::new_generate_not_equally_distributed(10, 10);
    let lengths = vec![StepLengths { top: 1, bottom: 1, right: 1, left: 1 }; 100];
    let graph = Graph::new_from_nodes(&nodes, &lengths, 10, 10);
    let geo = graph.create_geojson(&vec![(1, 2, 3, 4), (0, 0, 9, 9)]);
    assert_eq!(geo.kind, "FeatureCollection");
    assert_eq!(geo.features.len(), 2);
    let first = &geo.features[0];
    assert_eq!(first.kind, "Feature");
    assert_eq!(first.geometry.kind, "Polygon");
    let west = -1_800_000_000 + 360_000_000;
    let east = -1_800_000_000 + 3 * 360_000_000;
    let north = 900_000_000 - 2 * 180_000_000;
    let south = 900_000_000 - 4 * 180_000_000;
    assert_eq!(
        first.geometry.coordinates,
        vec![vec![
            at(west, north),
            at(east, north),
            at(east, south),
            at(west, south),
            at(west, north),
        ]]
    );
    let second = &geo.features[1].geometry.coordinates[0];
    assert_eq!(second[0], at(-1_800_000_000, 900_000_000));
    assert_eq!(second[2], at(1_440_000_000, -720_000_000));
    assert!(graph.create_geojson(&Vec::new()).features.is_empty());
}

#[test]
fn coasts_are_written_backwards() {
    let ways = vec![
        vec![at(0, 0), at(10, 0), at(10, 10), at(0, 0)],
        vec![at(50, 50), at(60, 60), at(50, 50)],
    ];
    let coasts = Coasts::new_from_ways(&ways).ok().unwrap();
    let geo = coasts.to_geojson();
    assert_eq!(geo.kind, "FeatureCollection");
    assert_eq!(geo.features.len(), 2);
    assert_eq!(geo.features[0].kind, "Feature");
    assert_eq!(geo.features[0].geometry.kind, "Polygon");
    assert_eq!(
        geo.features[0].geometry.coordinates,
        vec![vec![at(0, 0), at(10, 10), at(10, 0), at(0, 0)]]
    );
    assert_eq!(
        geo.features[1].geometry.coordinates,
        vec![vec![at(50, 50), at(60, 60), at(50, 50)]]
    );
}

#[test]
fn water_nodes_become_points() {
    let nodes = Nodes {
        nodes: vec![
            Node { coordinate: at(1, 2), is_water: true },
            Node { coordinate: at(3, 4), is_water: false },
            Node { coordinate: at(5, 6), is_water: true },
        ],
    };
    let geo = nodes.to_geojson();
    assert_eq!(geo.kind, "FeatureCollection");
    let points: Vec<Coordinate> = geo
        .features
        .iter()
        .map(|f| {
            assert_eq!(f.kind, "Feature");
            assert_eq!(f.geometry.kind, "Point");
            f.geometry.coordinates
        })
        .collect();
    assert_eq!(points, vec![at(1, 2), at(5, 6)]);
}
