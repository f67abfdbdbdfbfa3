//! Verified core of the Hanoi CCH routing stack: compressed sparse row
//! graphs, customizable contraction hierarchy topology, route replay and
//! evaluation, traffic classification and the request validation of the
//! routing server.

pub mod api;
pub mod bench;
pub mod cch;
pub mod cch_cache;
pub mod context;
pub mod contraction;
pub mod customized;
pub mod dataset;
pub mod directed_cch;
pub mod engine;
pub mod geometry;
pub mod graph;
pub mod graph_data;
pub mod line_graph;
pub mod multi_route;
pub mod node_order;
pub mod route_eval;
pub mod traffic;
pub mod tree_walk;
