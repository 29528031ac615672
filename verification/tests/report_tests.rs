use stylus_trace_studio::artifacts::resolve_artifact_path;
use stylus_trace_studio::builder::ProfileBuilder;
use stylus_trace_studio::diff::{diff, Verdict};
use stylus_trace_studio::errors::{ConfigError, TraceError};
use stylus_trace_studio::event::{EventKind, TraceEvent};
use stylus_trace_studio::report::{diff_summary, profile_summary, u64_to_string, verdict_text};
use stylus_trace_studio::threshold::ThresholdPolicy;

fn ev(kind: EventKind, label: &str, gas: u64, idx: usize) -> TraceEvent {
    TraceEvent {
        kind,
        label: label.to_string(),
        gas_cost: gas,
        ink_cost: None,
        sequence_index: idx,
    }
}

#[test]
fn renders_decimals() {
    assert_eq!(u64_to_string(0), "0");
    assert_eq!(u64_to_string(7), "7");
    assert_eq!(u64_to_string(1234), "1234");
    assert_eq!(u64_to_string(100000), "100000");
    assert_eq!(u64_to_string(u64::MAX), "18446744073709551615");
}

#[test]
fn renders_profile_summary() {
    let events = vec![
        ev(EventKind::CallEnter, "transfer", 10, 0),
        ev(EventKind::HostIoEnter, "storage_load", 3, 1),
        ev(EventKind::HostIoExit, "storage_load", 0, 2),
        ev(EventKind::CallExit, "transfer", 1, 3),
    ];
    let m = ProfileBuilder::new("0xabc".to_string(), "stylusTracer".to_string())
        .build(&events)
        .unwrap();
    assert_eq!(
        profile_summary(&m),
        "profile 0xabc: total_gas=14 total_hostio_calls=1"
    );
}

#[test]
fn renders_diff_summary_and_verdict() {
    let events = vec![
        ev(EventKind::CallEnter, "transfer", 100, 0),
        ev(EventKind::CallExit, "transfer", 0, 1),
    ];
    let m = ProfileBuilder::new("0xabc".to_string(), "stylusTracer".to_string())
        .build(&events)
        .unwrap();
    let pol = ThresholdPolicy { gas: Some(500), hostio: None, hot_paths: None };
    let r = diff(&m, &m, &pol);
    assert_eq!(verdict_text(&r.overall_verdict), "PASS");
    assert_eq!(diff_summary(&r), "verdict=PASS regressions=0");
    assert_eq!(verdict_text(&Verdict::Fail), "FAIL");
}

#[test]
fn plain_filenames_land_in_artifacts() {
    assert_eq!(
        resolve_artifact_path("profile.json".to_string(), "capture"),
        "artifacts/capture/profile.json"
    );
    assert_eq!(
        resolve_artifact_path("diff.svg".to_string(), "diff"),
        "artifacts/diff/diff.svg"
    );
}

#[test]
fn explicit_directories_are_kept() {
    assert_eq!(
        resolve_artifact_path("out/profile.json".to_string(), "capture"),
        "out/profile.json"
    );
    assert_eq!(
        resolve_artifact_path("/tmp/p.json".to_string(), "capture"),
        "/tmp/p.json"
    );
}

#[test]
fn trailing_separator_still_counts_as_bare() {
    // "dir/" names no parent directory, so it lands under artifacts/ like a
    // bare filename does.
    assert_eq!(
        resolve_artifact_path("dir/".to_string(), "capture"),
        "artifacts/capture/dir/"
    );
}

#[test]
fn error_messages_name_the_failure() {
    assert_eq!(
        TraceError::UnbalancedTrace.message(),
        "unbalanced trace: enter/exit events do not match"
    );
    assert_eq!(
        TraceError::MalformedTrace.message(),
        "malformed trace: tracer output could not be parsed"
    );
    assert_eq!(
        ConfigError::ThresholdOutOfRange.message(),
        "config error: threshold out of range"
    );
}
