//! Replaces order-losing operators of a physical query plan with their
//! order-preserving variants where that makes an explicit sort redundant, or
//! where an unbounded input needs its ordering kept.
pub mod ordering;
pub mod plan;
pub mod optimizer;
pub mod properties;
