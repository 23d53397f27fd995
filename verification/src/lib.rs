//! An in-memory directed graph container with incremental construction,
//! breadth-first search with an early-exit predicate, and a line-oriented
//! text codec for graphs with text payloads.

pub mod bfs;
pub mod codec;
pub mod decimal;
pub mod error;
pub mod graph;
pub mod model;
pub mod qwrap;
pub mod visited;
