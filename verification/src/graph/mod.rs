pub mod construct;
pub mod csr;
pub mod parse;
pub mod reach;
pub mod remap;

pub use csr::CsrGraph;
