//! Verified core of the PRISMA spectral-dispersion engine: the sizing of the
//! dispersion kernel and the partition / frequency-delay-line bookkeeping of the
//! uniformly partitioned overlap-save convolver.

pub mod dsp;
