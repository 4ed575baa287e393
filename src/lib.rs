//! Stopping-rule Monte Carlo estimation of the influence spread of a seed set.
//!
//! The library holds the decisions of the estimator: the seed set, the
//! sequential hit accumulator with its stopping rule, the exact estimate, and
//! the seed file format. Drawing reverse-reachable samples and the
//! floating-point threshold formula are left to the caller.
pub mod accumulator;
pub mod estimate;
pub mod seed_file;
pub mod seeds;
