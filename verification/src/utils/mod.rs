//! Graph utilities used by the passes.

mod graph;
pub mod tarjan_scc;

pub use self::graph::{Graph, VertexKey};

pub use self::tarjan_scc::SCC;

pub use crate::union_find::{DisjointSet, Key as DisjointSetKey, Value as DisjointSetValue};
