//! Error taxonomy of the profiling engine.

use vstd::prelude::*;

verus! {

/// A fatal error raised while normalizing or building a profile.
///
/// `MalformedTrace` means the tracer output could not be parsed into typed
/// events; `UnbalancedTrace` means the enter/exit structure of the stream is
/// inconsistent (an exit with no open enter, or an enter never closed).
/// Construction aborts on either: a partial profile is never returned.
#[derive(Clone, Copy, Debug, PartialEq, Eq, Structural)]
pub enum TraceError {
    MalformedTrace,
    UnbalancedTrace,
}

impl TraceError {
    /// A short human-readable description of the error.
    pub fn message(&self) -> (r: &'static str)
        ensures
            self is MalformedTrace ==> r@ == "malformed trace: tracer output could not be parsed"@,
            self is UnbalancedTrace ==> r@ == "unbalanced trace: enter/exit events do not match"@,
    {
        match self {
            TraceError::MalformedTrace => "malformed trace: tracer output could not be parsed",
            TraceError::UnbalancedTrace => "unbalanced trace: enter/exit events do not match",
        }
    }
}

/// A fatal error raised while resolving a threshold policy: a threshold
/// value lies outside the accepted percent range.
#[derive(Clone, Copy, Debug, PartialEq, Eq, Structural)]
pub enum ConfigError {
    ThresholdOutOfRange,
}

impl ConfigError {
    /// A short human-readable description of the error.
    pub fn message(&self) -> (r: &'static str)
        ensures
            r@ == "config error: threshold out of range"@,
    {
        "config error: threshold out of range"
    }
}

/// An error raised while decoding a persisted profile document.
#[derive(Clone, Copy, Debug, PartialEq, Eq, Structural)]
pub enum CodecError {
    MalformedDocument,
}

} // verus!
