//! Profile construction and diff/regression engine for Stylus transaction
//! traces.
//!
//! A flat, time-ordered trace-event stream is reconstructed into a call-tree
//! profile with per-node gas, Ink and HostIO metrics; hot paths are ranked;
//! two profiles can be compared under a threshold policy to produce a
//! pass/fail regression verdict.

pub mod errors;
pub mod event;
pub mod builder;
pub mod normalize;
pub mod artifacts;
pub mod threshold;
pub mod diff;
pub mod hotpath;
pub mod report;
pub mod codec;
