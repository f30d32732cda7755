//! Distance profiles and motif search over time series of integer samples.
//!
//! Every result here is exact. Samples are `i32`; raw squared distances are
//! summed in `u128`, which no window can overflow; min-max normalized
//! distances are fractions of two `u128` values.
pub mod distance;
pub mod motif;
pub mod naive;
pub mod scaling;
pub mod wide;
