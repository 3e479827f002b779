use vstd::prelude::*;

verus! {

/// The error that a node's own computation reports.
#[derive(Clone, Debug, PartialEq, Eq)]
pub struct NodeError {
    pub message: String,
}

impl NodeError {
    pub fn new(message: &str) -> (r: NodeError)
        ensures
            r.message@ == message@,
    {
        NodeError { message: message.to_owned() }
    }
}

/// What an operation on a graph can fail with.
#[derive(Clone, Debug, PartialEq, Eq)]
pub enum GraphError {
    /// A port reference names a node that is not in the graph, or a port
    /// that the node does not declare, or has the wrong direction.
    InvalidPort,
    /// The two ports exist, but the type of the source cannot feed the
    /// type of the destination.
    IncompatiblePorts,
    /// No order exists: the graph has a cycle, and the node lies on one.
    CycleDetected(u32),
    /// A node was forced to run while one of its declared inputs had no
    /// value.
    MissingInput(u32),
    /// The node's computation failed.
    ComputeFailed(u32, NodeError),
    /// The value store has handed out every stamp it has; nothing was
    /// stored.
    StampsExhausted,
}

} // verus!
