//! A verified best-first (A*) planning library: a domain-independent search
//! engine over a pluggable domain contract, with two discrete domains (a
//! kitchen task and a door/room world) and a scenario runner.
pub mod a_star;
pub mod doors;
pub mod finite;
pub mod kitchen;
pub mod scenario;

pub use a_star::{Domain, Neighbor, SearchExhausted};
