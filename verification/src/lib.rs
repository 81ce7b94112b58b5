//! A graph library: directed and undirected graphs, multi-graphs, and
//! the algorithms over them whose results are whole numbers or sets of nodes.

mod graph_specs;

pub use graph_specs::{EdgeDedupeStrategy, GraphSpecs, MissingNodeStrategy, SelfLoopsFalseStrategy};
mod error;
pub use error::{Error, ErrorKind};
mod node;
pub use node::Node;
mod edge;
pub use edge::{is_nan_bits, weight_is_nan, Edge, NAN_BITS};
mod edge_index;
pub use edge_index::EdgeIndex;
pub mod ext;
mod shared;
pub mod graph;
pub mod adjacency_map;
pub use graph::reach::Direction;
pub use graph::{arc_values, indices_where, names_where, Graph, GraphView, ToUndirectedCollapseEdgeWeightsStrategy};
pub mod algorithms;
