//! A research testbed for evaluating distributed routing algorithms over
//! synthetic network topologies: a compact graph engine, a round-based
//! simulation view, a family of routing algorithms behind one shared
//! interface, a cached shortest-path oracle, and an evaluation harness that
//! measures routing quality against that oracle.

pub mod debug_path;
pub mod dijkstra;
pub mod distance_enumeration;
pub mod distance_vector_routing;
pub mod graph;
pub mod max_num_consensus;
pub mod meta;
pub mod movements;
pub mod passive_routing_test;
pub mod random_routing;
pub mod rng;
pub mod sim;
pub mod spanning_tree_routing;
pub mod stats;
pub mod utils;
