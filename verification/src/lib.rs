//! Dense, fixed-shape storage for the state of an ensemble MCMC sampler:
//! the per-parameter sample history of each walker across iterations
//! (`stores::Chain`) and the matching log-probability history
//! (`stores::ProbStore`).
//!
//! Sample values are carried as opaque 64-bit words. The stores never
//! inspect a value; a caller that works in floating point keeps the bit
//! pattern of each `f64` here (the all-zero word is the pattern of `0.0`,
//! so a freshly built store reads back as all zeros either way).

pub mod guess;
pub mod stores;
