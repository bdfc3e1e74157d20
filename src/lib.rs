//! Fleet routing: a range-constrained site graph, shortest-path queries over
//! it, and the search for feasible flight plans between two vertiports.
//!
//! Coordinates are fixed-point integers (millionths of a degree), distances
//! are whole centimetres and instants are seconds since the Unix epoch.

pub mod edge;
pub mod error;
pub mod location;
pub mod node;
pub mod status;
pub mod generator;
pub mod graph;
pub mod digraph;
pub mod router;
pub mod calendar;
pub mod feasibility;
pub mod search;
pub mod service;
