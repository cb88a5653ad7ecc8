//! Periodic-review inventory simulation under stochastic (Zipf) demand.
//!
//! The per-day transition, the replenishment ring and the reduction of
//! per-trial counters are verified against mathematical models. Demand
//! draws are taken by the caller and handed in as plain values; lane seeds
//! come from `rand`. Every function that consumes them is verified for
//! every value they can take.
pub mod batch;
pub mod config;
pub mod pipeline;
pub mod sampling;
pub mod trial;
