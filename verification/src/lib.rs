//! A small library for answering fixed-shape queries over a directed,
//! weighted graph of stations built from a textual edge list.
//!
//! The graph is built once from text such as `"AB5, BC4"` (each token
//! `<letter><letter><digits>` is one directed edge) and is immutable
//! afterwards.  Five query operations are offered: exact-path distance,
//! bounded-hop circular-route counts, exact-hop path counts, shortest-path
//! distance, and distance-bounded path counts.

pub mod engine;
pub mod graph;
pub mod laws;
pub mod model;
pub mod parse;
pub mod render;
pub mod route;

pub use graph::RouteMap;
pub use laws::lemma_circular_route_pure_cycle;
pub use laws::lemma_path_short_circuit;
pub use laws::lemma_rl_count_unique;
pub use laws::lemma_shortest_route_minimal;
pub use laws::lemma_shortest_route_nontrivial;
pub use laws::lemma_single_stop_distance;
pub use laws::lemma_sr_answer_unique;
pub use model::AdjView;
pub use model::lemma_build_adj_distinct;
pub use render::Command;
pub use render::u32_to_string;
pub use route::Route;
pub use parse::parse_edges;
pub use parse::ParsedEdge;
pub use parse::GraphError;
