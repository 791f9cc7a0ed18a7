//! Monte Carlo estimation of the reliability of a communication network
//! whose links fail at random.
//!
//! A topology is an undirected graph of nodes joined by links of bounded
//! bandwidth. In one trial every link fails on its own with the probability
//! that its stability leaves, the traffic between each pair of nodes is sent
//! along a shortest remaining path, and the load on the links is measured.
//! Many trials give the share of them in which the network stays connected
//! and within a congestion threshold.

pub mod congestion;
pub mod demand;
pub mod failure;
pub mod flow;
pub mod laws;
pub mod link;
pub mod setup;
pub mod topology;
pub mod trial;
pub mod walk;

pub use congestion::{test_network, Congestion};
pub use demand::Intensity;
pub use failure::{disconnect, link_fails, random_disconnect, sample};
pub use flow::{carry, reset_flow, route, set_flow};
pub use link::{Connection, Link, DEFAULT_STABILITY, FULL_STABILITY};
pub use setup::{add_links, build_topology, init_graph, set_edges, set_edges2, set_intensity, Cable, NODES};
pub use topology::Topology;
pub use trial::{reliability, trial, Estimate, Tally, Trial};
