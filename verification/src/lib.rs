//! A social graph of "follows" relationships among identities of a
//! decentralized social protocol, with two query algorithms on top of it:
//! a bidirectional search for the degree of separation between two
//! identities, and an ego-centric "friends of friends" ranking.
//!
//! The crate holds the data structures and the algorithms; fetching data
//! from the network is left to the caller, who merges fetched contact
//! lists and profiles into the graph between algorithm steps.

pub mod identity;
pub mod map_intersect;
pub mod network;
pub mod sep_degrees;
pub mod user;
