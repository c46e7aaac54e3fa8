pub mod candidates;
pub mod constraints;
pub mod graph;
pub mod graph_store;
pub mod plan;
pub mod pool;
pub mod splitter;
