//! Teammate-graph cohesion analysis.
//!
//! The library ingests roster records (a player name tagged with a team),
//! builds an undirected graph in which two players are connected exactly
//! when some team contains both, and analyzes that graph: it counts
//! connected components, computes per-node closeness centrality as an
//! exact rational `(N - 1) / D(v)` (where `D(v)` sums shortest-path
//! distances from `v`), and extracts the bounded top-K and bottom-K
//! scores with a deterministic tie-break.

mod centrality;
mod components;
mod graph;
mod model;
mod ranking;
mod reach;

pub use centrality::Centrality;
pub use centrality::compute_closeness_centrality;
pub use components::find_connected_components;
pub use graph::create_graph;
pub use ranking::DEFAULT_CAPACITY;
pub use ranking::Entry;
pub use ranking::RankExtractor;
pub use ranking::RankedSet;
pub use ranking::rank_scores;

pub use graph::Graph;
pub use model::Player;
