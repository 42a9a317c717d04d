//! A marker-based streaming estimator for a single target quantile.
//!
//! Observations are IEEE-754 binary64 values, carried as their raw bit
//! patterns (`u64`). The `fp` module supplies the floating-point operations
//! through a small trusted boundary; the `p2` module holds the verified
//! estimator itself.

pub mod fp;
pub mod p2;
