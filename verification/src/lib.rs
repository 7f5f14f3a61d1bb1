//! Dependency-graph explorer: parses dependency-edge listings, builds a
//! bidirectional adjacency model with direct-circular-pair detection, and
//! expands a rooted, cycle-aware, memoized dependency tree with an explicit
//! work stack.

pub mod bytes;
pub mod expand;
pub mod graph;
pub mod parse;
pub mod stack;
