//! Dispersion kernel sizing and partitioned convolution bookkeeping.

pub mod conv;
pub mod kernel;
