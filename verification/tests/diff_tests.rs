use stylus_trace_studio::builder::{ProfileBuilder, ProfileModel};
use stylus_trace_studio::diff::{diff, HotPathDeltaKind, MetricKind, Verdict};
use stylus_trace_studio::event::{EventKind, TraceEvent};
use stylus_trace_studio::hotpath::{top_n, RankMetric};
use stylus_trace_studio::threshold::ThresholdPolicy;

fn ev(kind: EventKind, label: &str, gas: u64, idx: usize) -> TraceEvent {
    TraceEvent {
        kind,
        label: label.to_string(),
        gas_cost: gas,
        ink_cost: None,
        sequence_index: idx,
    }
}

fn single_call_profile(label: &str, gas: u64) -> ProfileModel {
    let events = vec![
        ev(EventKind::CallEnter, label, gas, 0),
        ev(EventKind::CallExit, label, 0, 1),
    ];
    let mut m = ProfileBuilder::new("0xabc".to_string(), "stylusTracer".to_string())
        .build(&events)
        .unwrap();
    m.hot_paths = top_n(&m, 5, RankMetric::Gas);
    m
}

fn policy(gas: Option<u64>, hostio: Option<u64>, hot_paths: Option<u64>) -> ThresholdPolicy {
    ThresholdPolicy { gas, hostio, hot_paths }
}

#[test]
fn gas_regression_fires_at_six_percent_over_five() {
    // baseline 100000, target 106000, threshold 5.00 % => +6.00 %, Fail.
    let b = single_call_profile("transfer", 100000);
    let t = single_call_profile("transfer", 106000);
    let r = diff(&b, &t, &policy(Some(500), None, None));
    assert_eq!(r.gas_delta.percent_change_centi, 600);
    assert!(!r.gas_delta.divergent);
    assert_eq!(r.regressions.len(), 1);
    assert_eq!(r.regressions[0].metric, MetricKind::Gas);
    assert_eq!(r.regressions[0].threshold_centi, 500);
    assert_eq!(r.overall_verdict, Verdict::Fail);
}

#[test]
fn divergent_baseline_flags_gas_regardless_of_threshold() {
    // baseline 0, target 500: an "infinite increase" fires whenever the
    // Gas threshold is set, whatever its value.
    let b = single_call_profile("transfer", 0);
    let t = single_call_profile("transfer", 500);
    let r = diff(&b, &t, &policy(Some(9000000), None, None));
    assert!(r.gas_delta.divergent);
    assert_eq!(r.gas_delta.percent_change_centi, 0);
    assert_eq!(r.regressions.len(), 1);
    assert_eq!(r.regressions[0].metric, MetricKind::Gas);
    assert!(r.regressions[0].divergent);
    assert_eq!(r.overall_verdict, Verdict::Fail);
}

#[test]
fn self_diff_passes_with_zero_changes() {
    let m = single_call_profile("transfer", 12345);
    let r = diff(&m, &m, &policy(Some(0), Some(0), Some(0)));
    assert_eq!(r.overall_verdict, Verdict::Pass);
    assert_eq!(r.gas_delta.percent_change_centi, 0);
    assert_eq!(r.hostio_delta.percent_change_centi, 0);
    assert!(r.regressions.is_empty());
    assert!(r.hot_path_deltas.is_empty());
}

#[test]
fn unset_thresholds_never_fire() {
    let b = single_call_profile("transfer", 100);
    let t = single_call_profile("transfer", 100000);
    let r = diff(&b, &t, &policy(None, None, None));
    assert!(r.regressions.is_empty());
    assert_eq!(r.overall_verdict, Verdict::Pass);
}

#[test]
fn exactly_at_threshold_does_not_fire() {
    // +5.00 % against a 5.00 % threshold: not strictly greater, Pass.
    let b = single_call_profile("transfer", 100000);
    let t = single_call_profile("transfer", 105000);
    let r = diff(&b, &t, &policy(Some(500), None, None));
    assert_eq!(r.gas_delta.percent_change_centi, 500);
    assert!(r.regressions.is_empty());
    assert_eq!(r.overall_verdict, Verdict::Pass);
}

#[test]
fn decrease_reports_negative_change_and_passes() {
    let b = single_call_profile("transfer", 100000);
    let t = single_call_profile("transfer", 94000);
    let r = diff(&b, &t, &policy(Some(500), None, None));
    assert_eq!(r.gas_delta.percent_change_centi, -600);
    assert_eq!(r.overall_verdict, Verdict::Pass);
}

#[test]
fn new_hot_path_is_reported() {
    let b = single_call_profile("transfer", 1000);
    let t = single_call_profile("mint", 1000);
    let r = diff(&b, &t, &policy(None, None, Some(500)));
    // The target ranks the path root->mint, absent from the baseline.
    let new: Vec<_> = r
        .hot_path_deltas
        .iter()
        .filter(|d| d.kind == HotPathDeltaKind::NewHotPath)
        .collect();
    assert_eq!(new.len(), 1);
    assert_eq!(new[0].node_path, vec!["0xabc".to_string(), "mint".to_string()]);
    assert!(r
        .regressions
        .iter()
        .any(|g| g.metric == MetricKind::HotPaths));
    assert_eq!(r.overall_verdict, Verdict::Fail);
}

#[test]
fn ink_delta_absent_when_not_measured() {
    let b = single_call_profile("transfer", 1000);
    let t = single_call_profile("transfer", 1000);
    let r = diff(&b, &t, &policy(None, None, None));
    assert!(r.ink_delta.is_none());
}
