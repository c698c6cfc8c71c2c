//! Planarity queries over a fixed catalog of candidate edges: a planarity
//! test, a Kuratowski-witness extractor, and an index that reports which
//! absent candidates can be added to the selected subgraph.
pub mod connectivity;
pub mod edge;
pub mod mps;
pub mod planarity;
pub mod spqr;

pub use edge::Edge;
