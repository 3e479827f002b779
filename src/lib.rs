//! A typed, directed dataflow graph: nodes with named, typed ports, edges
//! between output and input ports, a store of the values that nodes have
//! computed, and a scheduler that orders the nodes by their dependencies.

pub mod driver;
pub mod error;
pub mod graph;
pub mod port;
pub mod schedule;
pub mod topology;
pub mod wire;

pub use error::{GraphError, NodeError};
pub use driver::{ComputeResult, RunReport};
pub use graph::{Edge, Graph, GraphNode, NodePorts};
pub use port::{ElemKind, PortCompat, PortKind, PortRef, IO};
pub use wire::{alias_of, Wire, WireStore};
