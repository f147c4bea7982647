//! The error taxonomy: operation errors (graph mutation rule violations),
//! interface errors (malformed external input), algorithm errors (flow
//! preconditions), and the umbrella error that unites them.

use vstd::prelude::*;

verus! {

/// A graph mutation broke one of the graph's rules.
#[derive(Clone, Copy, Debug, PartialEq, Eq, Structural)]
pub enum GraphOperationError {
    VertexExists,
    VertexNotFound,
    EdgeExists,
    EdgeNotFound,
    SomeVerticesNotFound,
    WeightedEdgeInUnweightedGraph,
    UnweightedEdgeInWeightedGraph,
}

/// External textual input was malformed, or an operation was attempted
/// before any graph existed.
#[derive(Clone, Copy, Debug, PartialEq, Eq, Structural)]
pub enum GraphInterfaceError {
    IncorrectArgumentCount,
    IncorrectArgument { i: usize },
    GraphNotExist,
    FileError,
    WrongParsingVerticesStart,
    EmptyFile,
}

/// A flow computation was requested on a graph that does not support it.
#[derive(Clone, Copy, Debug, PartialEq, Eq, Structural)]
pub enum GraphAlgorithmError {
    GraphNotDirected,
    GraphNotWeighted,
}

/// Any error the library can report. Input/output failures are surfaced by
/// unverified callers as `IOError`.
#[derive(Clone, Copy, Debug, PartialEq, Eq, Structural)]
pub enum GraphError {
    OperationError(GraphOperationError),
    InterfaceError(GraphInterfaceError),
    AlgorithmError(GraphAlgorithmError),
    IOError,
}

} // verus!
