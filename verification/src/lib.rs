//! Shortest maritime routes over a latitude/longitude raster of the oceans.
//!
//! The crate holds the routing core: the raster geometry in integer
//! coordinates, the compressed adjacency graph, the priority queue, the four
//! search variants, the graph builders, the coastline assembler, the land
//! classifier and the query facade. Its functions carry contracts that Verus
//! proves. Two calls leave the crate, one into `str::to_lowercase` and one
//! into `rand`; they are wrapped, and the contracts of the wrappers are
//! taken on trust.
//!
//! Lengths of great circles and bearings are floating-point arithmetic and
//! are measured by the caller: the functions here take them as numbers.

pub mod bidirectional;
pub mod classifier;
pub mod coast;
pub mod crossing;
pub mod execution;
mod frontier;
pub mod geojson;
pub mod grammar;
pub mod graph;
pub mod heap_node;
pub mod integrity;
pub mod laws;
pub mod overlay;
pub mod picker;
pub mod query;
pub mod queue;
pub mod raster;
pub mod rounds;
pub mod sampling;
pub mod search;
mod sequences;
pub mod state;

pub use classifier::{EdgeBearings, EdgeCheck};
pub use coast::{AssemblyError, Coast, Coasts};
pub use execution::ExecutionType;
pub use geojson::{GEOJson, GEOJsonFeature, GEOJsonGeometry, GEOJsonProperty};
pub use graph::{Edge, Graph};
pub use heap_node::HeapNode;
pub use overlay::{OverlayError, Shortcut};
pub use queue::NodeQueue;
pub use raster::{Coordinate, Node, Nodes, StepLengths};
pub use search::PathResult;
pub use state::AlgorithmState;
