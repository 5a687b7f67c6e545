//! All-pairs shortest paths for directed graphs whose edge weights may be
//! negative, by Johnson's algorithm: potentials from a Bellman-Ford pass,
//! reweighting to non-negative weights, and one Dijkstra search per vertex.
//!
//! Every executable function carries a contract over the mathematical model
//! in [`graph`]: walks, their weights, negative cycles and shortest distances.

pub mod adjacency;
pub mod graph;
pub mod johnson;
pub mod matrix;
pub mod potential;
pub mod queue;
pub mod reweight;
pub mod search;

pub use johnson::johnsons_algorithm;
