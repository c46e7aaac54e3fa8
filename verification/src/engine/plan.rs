//! One hop of a planned route.
use crate::engine::pool::Edge;
use std::collections::HashMap;
use vstd::prelude::*;

verus! {

/// RouteLeg represents one hop in a route.
#[derive(Debug, Clone)]
pub struct RouteLeg {
    pub src: String,
    pub dst: String,
    pub pool_id: String,
    pub pool_kind: String,
    pub edge_name: String,
    pub metadata: HashMap<String, String>,
}

impl RouteLeg {
    /// The leg that crosses `edge` through a pool of kind `pool_kind` whose
    /// metadata is `metadata`.
    pub fn from_edge(edge: &Edge, pool_kind: String, metadata: HashMap<String, String>) -> (leg: Self)
        ensures
            leg.src == edge.src,
            leg.dst == edge.dst,
            leg.pool_id == edge.pool_id,
            leg.edge_name == edge.name,
            leg.pool_kind == pool_kind,
            leg.metadata == metadata,
    {
        RouteLeg {
            src: edge.src.clone(),
            dst: edge.dst.clone(),
            pool_id: edge.pool_id.clone(),
            pool_kind,
            edge_name: edge.name.clone(),
            metadata,
        }
    }
}

} // verus!
