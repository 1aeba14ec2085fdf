//! Verified core of a RAPL-based CPU power meter.
//!
//! The library computes CPU topology (thread, core and package counts) from
//! the per-CPU package-id files that the caller reads, decodes the hardware
//! energy-accumulator registers, and turns two-sample energy deltas into
//! per-core and per-package power figures in exact scaled units.  All file
//! and device access, as well as the final conversion to floating-point
//! watts, is left to the (unverified) caller.

pub mod parse;
pub mod rapl;
