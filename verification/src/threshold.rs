//! Threshold policy resolution from layered configuration sources.
//!
//! All threshold values are percentages expressed in hundredths of a percent
//! ("centi-percent"): `500` means 5.00 %. The accepted range is 0 to
//! 100000 % (`10_000_000` centi-percent).

use vstd::prelude::*;
use crate::errors::ConfigError;

verus! {

/// The largest accepted threshold, 100000 percent, in centi-percent.
pub const MAX_THRESHOLD_CENTI: u64 = 10000000;

/// Thresholds read from a configuration file (the base layer). Each value
/// is in centi-percent; `None` means the file does not set the metric.
#[derive(Clone, Copy, Debug, PartialEq, Eq)]
pub struct FileThresholds {
    pub gas: Option<u64>,
    pub hostio: Option<u64>,
    pub hot_paths: Option<u64>,
}

/// Thresholds given on the command line. `threshold_percent` is the blanket
/// flag; the metric-specific flags switch the comparison into focused mode.
#[derive(Clone, Copy, Debug, PartialEq, Eq)]
pub struct CliThresholds {
    pub threshold_percent: Option<u64>,
    pub gas_threshold: Option<u64>,
    pub hostio_threshold: Option<u64>,
}

/// The effective policy a comparison runs under: per-metric thresholds in
/// centi-percent, `None` meaning the metric is not checked.
#[derive(Clone, Copy, Debug, PartialEq, Eq)]
pub struct ThresholdPolicy {
    pub gas: Option<u64>,
    pub hostio: Option<u64>,
    pub hot_paths: Option<u64>,
}

pub open spec fn value_in_range(o: Option<u64>) -> bool {
    match o {
        Some(v) => v <= MAX_THRESHOLD_CENTI,
        None => true,
    }
}

/// Every provided threshold lies in the accepted percent range.
pub open spec fn config_in_range(file: FileThresholds, cli: CliThresholds) -> bool {
    &&& value_in_range(file.gas)
    &&& value_in_range(file.hostio)
    &&& value_in_range(file.hot_paths)
    &&& value_in_range(cli.threshold_percent)
    &&& value_in_range(cli.gas_threshold)
    &&& value_in_range(cli.hostio_threshold)
}

pub open spec fn first_set(a: Option<u64>, b: Option<u64>) -> Option<u64> {
    if a is Some {
        a
    } else {
        b
    }
}

/// The policy the layered sources denote.
///
/// Layering, lowest first: built-in defaults (all unset), file values, the
/// blanket percent flag onto any metric still unset. A metric-specific flag
/// switches to focused mode: exactly the flagged metrics are checked and
/// every other metric is disabled, whatever the file or blanket say.
pub open spec fn spec_resolve(file: FileThresholds, cli: CliThresholds) -> ThresholdPolicy {
    if cli.gas_threshold is Some || cli.hostio_threshold is Some {
        ThresholdPolicy {
            gas: cli.gas_threshold,
            hostio: cli.hostio_threshold,
            hot_paths: None,
        }
    } else {
        ThresholdPolicy {
            gas: first_set(file.gas, cli.threshold_percent),
            hostio: first_set(file.hostio, cli.threshold_percent),
            hot_paths: first_set(file.hot_paths, cli.threshold_percent),
        }
    }
}

fn check_range(o: &Option<u64>) -> (r: bool)
    ensures
        r == value_in_range(*o),
{
    match o {
        Some(v) => *v <= MAX_THRESHOLD_CENTI,
        None => true,
    }
}

/// Merges threshold configuration into one effective policy.
///
/// Fails with `ConfigError` exactly when some provided value lies outside
/// the accepted percent range; otherwise the result is exactly the layered
/// merge ([`spec_resolve`]).
pub fn resolve(file: &FileThresholds, cli: &CliThresholds) -> (r: Result<
    ThresholdPolicy,
    ConfigError,
>)
    ensures
        match r {
            Ok(p) => config_in_range(*file, *cli) && p == spec_resolve(*file, *cli),
            Err(e) => !config_in_range(*file, *cli) && e == ConfigError::ThresholdOutOfRange,
        },
{
    if !(check_range(&file.gas) && check_range(&file.hostio) && check_range(&file.hot_paths)
        && check_range(&cli.threshold_percent) && check_range(&cli.gas_threshold) && check_range(
        &cli.hostio_threshold,
    )) {
        return Err(ConfigError::ThresholdOutOfRange);
    }
    let focused = cli.gas_threshold.is_some() || cli.hostio_threshold.is_some();
    if focused {
        Ok(
            ThresholdPolicy {
                gas: cli.gas_threshold,
                hostio: cli.hostio_threshold,
                hot_paths: None,
            },
        )
    } else {
        Ok(
            ThresholdPolicy {
                gas: if file.gas.is_some() {
                    file.gas
                } else {
                    cli.threshold_percent
                },
                hostio: if file.hostio.is_some() {
                    file.hostio
                } else {
                    cli.threshold_percent
                },
                hot_paths: if file.hot_paths.is_some() {
                    file.hot_paths
                } else {
                    cli.threshold_percent
                },
            },
        )
    }
}

/// Threshold precedence: a metric-specific flag alone decides which metrics
/// are checked — a conflicting file value or blanket flag changes nothing.
pub proof fn lemma_metric_flag_overrides(file: FileThresholds, cli: CliThresholds)
    requires
        cli.gas_threshold is Some || cli.hostio_threshold is Some,
    ensures
        spec_resolve(file, cli).gas == cli.gas_threshold,
        spec_resolve(file, cli).hostio == cli.hostio_threshold,
        spec_resolve(file, cli).hot_paths is None,
{
}

} // verus!
