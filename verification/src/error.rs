use vstd::prelude::*;

verus! {

/// What is wrong with one line of an edge list.
#[derive(Clone, Copy, Debug, PartialEq, Eq, Structural)]
pub enum EdgeErrorKind {
    /// The line holds no field (a blank line).
    MissingSrc,
    /// The first field is not a decimal `u64`.
    InvalidSrc,
    /// The line holds a single field.
    MissingDst,
    /// The second field is not a decimal `u64`.
    InvalidDst,
}

/// Errors of graph construction and of the parallel algorithms.
#[derive(Clone, Copy, Debug, PartialEq, Eq, Structural)]
pub enum GraphError {
    /// Line `line` (counted from 1) is not an edge.
    InvalidEdge { line: usize, kind: EdgeErrorKind },
    /// A vertex id exceeds `u32::MAX` (ids taken as they are).
    VertexIdTooLarge,
    /// More than `u32::MAX` distinct vertex ids (ids remapped).
    TooManyVertices,
    /// The algorithm needs the reverse arrays and the graph has none.
    MissingReverse,
}

} // verus!
