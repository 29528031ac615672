use stylus_trace_studio::errors::ConfigError;
use stylus_trace_studio::threshold::{resolve, CliThresholds, FileThresholds};

fn file(gas: Option<u64>, hostio: Option<u64>, hot_paths: Option<u64>) -> FileThresholds {
    FileThresholds { gas, hostio, hot_paths }
}

fn cli(
    threshold_percent: Option<u64>,
    gas_threshold: Option<u64>,
    hostio_threshold: Option<u64>,
) -> CliThresholds {
    CliThresholds { threshold_percent, gas_threshold, hostio_threshold }
}

#[test]
fn metric_flag_alone_decides_checked_metrics() {
    // A conflicting file blanket and a blanket flag are both present; the
    // gas-specific flag wins and disables the other metrics.
    let f = file(Some(1000), Some(1000), Some(1000));
    let c = cli(Some(2000), Some(500), None);
    let p = resolve(&f, &c).unwrap();
    assert_eq!(p.gas, Some(500));
    assert_eq!(p.hostio, None);
    assert_eq!(p.hot_paths, None);
}

#[test]
fn blanket_fills_only_unset_metrics() {
    let f = file(Some(1000), None, None);
    let c = cli(Some(2000), None, None);
    let p = resolve(&f, &c).unwrap();
    assert_eq!(p.gas, Some(1000));
    assert_eq!(p.hostio, Some(2000));
    assert_eq!(p.hot_paths, Some(2000));
}

#[test]
fn defaults_are_all_unset() {
    let p = resolve(&file(None, None, None), &cli(None, None, None)).unwrap();
    assert_eq!(p.gas, None);
    assert_eq!(p.hostio, None);
    assert_eq!(p.hot_paths, None);
}

#[test]
fn file_values_form_the_base_layer() {
    let p = resolve(&file(Some(300), Some(400), None), &cli(None, None, None)).unwrap();
    assert_eq!(p.gas, Some(300));
    assert_eq!(p.hostio, Some(400));
    assert_eq!(p.hot_paths, None);
}

#[test]
fn hostio_flag_alone_disables_gas_and_hot_paths() {
    let f = file(Some(1000), Some(1000), Some(1000));
    let c = cli(None, None, Some(700));
    let p = resolve(&f, &c).unwrap();
    assert_eq!(p.gas, None);
    assert_eq!(p.hostio, Some(700));
    assert_eq!(p.hot_paths, None);
}

#[test]
fn out_of_range_value_is_a_config_error() {
    // 100000 % is the limit; one centi-percent more is refused.
    let f = file(Some(10000001), None, None);
    let c = cli(None, None, None);
    assert_eq!(resolve(&f, &c), Err(ConfigError::ThresholdOutOfRange));
}

#[test]
fn limit_value_is_accepted() {
    let f = file(Some(10000000), None, None);
    let p = resolve(&f, &cli(None, None, None)).unwrap();
    assert_eq!(p.gas, Some(10000000));
}
