//! Graph analytics over compressed sparse row (CSR) graphs: construction from
//! edge lists, breadth-first distances, weakly connected components, and a
//! random Erdős–Rényi edge-list generator.

pub mod algorithms;
pub mod error;
pub mod generator;
pub mod graph;

pub use error::{EdgeErrorKind, GraphError};
