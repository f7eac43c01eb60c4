//! An in-memory undirected graph store together with randomized
//! community-estimation queries: bounded-depth neighbour enumeration,
//! repeated random walks from a single seed, and a batched multi-seed
//! simulator that amortizes one random trajectory over many seed
//! queries, optionally binned into power-of-two walk-length scales.

pub mod counts;
pub mod graph;
pub mod reach;
pub mod scales;
pub mod search;
pub mod sim;
pub mod walk;

pub use graph::Graph;
pub use graph::new_graph;
pub use graph::len;
pub use graph::add_node;
pub use graph::add_edge;
pub use graph::remove_node;
pub use graph::remove_edge;
pub use search::neighbors;
pub use walk::random_walk;
pub use walk::community;
pub use sim::communities;
pub use scales::communities_range;
