//! Routing engine for token swaps across liquidity pools: graph topology,
//! candidate path search, and the integer decisions of capital allocation.
pub mod adapters;
pub mod engine;
pub mod loader;

pub use adapters::curve::{curve_token_indices, CurvePoolError};
pub use engine::candidates::{dedupe_paths, generate_candidate_paths, route_extensions, yen_k_paths};
pub use engine::constraints::{OptimizationAlgorithm, RoutingConstraints, SplitConfig};
pub use engine::graph::RoutingGraph;
pub use engine::plan::RouteLeg;
pub use engine::pool::Edge;
pub use engine::splitter::{algo_label, touched_paths, PathBudget};
pub use loader::pool_loader::PoolFactory;
