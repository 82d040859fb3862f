//! An in-memory directed graph with integer node identifiers, validated
//! batch construction, breadth-first traversal, and a line-oriented,
//! whitespace-delimited text serialization format.

pub mod node;
pub mod graph;
pub mod bfs;
pub mod numtext;
pub mod codec;

pub use graph::{Graph, GraphError};
pub use node::{AsText, Node};
