//! Clustered travelling-salesman instances and the decision-diagram model
//! that solves them.
//!
//! The crate holds the rules of the toolkit: how a generation request is
//! checked and laid out, and how a tour is modelled as a sequence of
//! decisions over compact bitset states. Sampling, routing and the search
//! engine itself are driven from outside with the values computed here.

pub mod bitset;
pub mod generation;
pub mod instance;
pub mod number;
pub mod random;
pub mod resolution;
pub mod solution;
pub mod visualisation;
