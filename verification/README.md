# metis

A routing engine for token swaps across liquidity pools, split in two.

- `src/` is the verified library (Verus): the token graph over a `petgraph`
  directed graph (`engine/graph.rs`, with the trusted contracts of the graph
  operations in `engine/graph_store.rs`), candidate path search and merging
  (`engine/candidates.rs`), routing constraints (`engine/constraints.rs`), the
  integer decisions of allocation (`engine/splitter.rs`), route legs
  (`engine/plan.rs`), and the token checks of stable swap pools
  (`adapters/curve.rs`, `loader/pool_loader.rs`).
- `app/` holds what works in floating point: the pool models, the streaming
  and Bellman-Ford searches, the allocators (waterfill, golden-section, Brent,
  hybrid), the JSON loader, the demo graph and the benchmark reports.
- `tests/` exercises the library.
