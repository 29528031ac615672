use stylus_trace_studio::builder::{ProfileBuilder, ProfileModel};
use stylus_trace_studio::codec::{deserialize, serialize};
use stylus_trace_studio::errors::CodecError;
use stylus_trace_studio::event::{EventKind, TraceEvent};
use stylus_trace_studio::hotpath::{top_n, RankMetric};

fn ev(kind: EventKind, label: &str, gas: u64, ink: Option<u64>, idx: usize) -> TraceEvent {
    TraceEvent {
        kind,
        label: label.to_string(),
        gas_cost: gas,
        ink_cost: ink,
        sequence_index: idx,
    }
}

fn sample_profile() -> ProfileModel {
    let events = vec![
        ev(EventKind::CallEnter, "transfer", 10, Some(100000), 0),
        ev(EventKind::HostIoEnter, "storage_load", 3, Some(30000), 1),
        ev(EventKind::HostIoExit, "storage_load", 0, Some(0), 2),
        ev(EventKind::CallEnter, "inner", 2, Some(20000), 3),
        ev(EventKind::CallExit, "inner", 0, Some(0), 4),
        ev(EventKind::CallExit, "transfer", 1, Some(10000), 5),
    ];
    let mut m = ProfileBuilder::new("0xabc".to_string(), "stylusTracer".to_string())
        .build(&events)
        .unwrap();
    m.hot_paths = top_n(&m, 3, RankMetric::Gas);
    m
}

fn assert_models_equal(a: &ProfileModel, b: &ProfileModel) {
    assert_eq!(a.transaction_hash, b.transaction_hash);
    assert_eq!(a.tracer_name, b.tracer_name);
    assert_eq!(a.total_gas, b.total_gas);
    assert_eq!(a.total_ink, b.total_ink);
    assert_eq!(a.total_hostio_calls, b.total_hostio_calls);
    assert_eq!(a.nodes.len(), b.nodes.len());
    for (x, y) in a.nodes.iter().zip(b.nodes.iter()) {
        assert_eq!(x.label, y.label);
        assert_eq!(x.parent, y.parent);
        assert_eq!(x.children, y.children);
        assert_eq!(x.self_gas, y.self_gas);
        assert_eq!(x.self_ink, y.self_ink);
        assert_eq!(x.self_hostio_count, y.self_hostio_count);
        assert_eq!(x.cumulative_gas, y.cumulative_gas);
        assert_eq!(x.cumulative_ink, y.cumulative_ink);
        assert_eq!(x.hostio_count, y.hostio_count);
        assert_eq!(x.call_count, y.call_count);
    }
    assert_eq!(a.hot_paths.len(), b.hot_paths.len());
    for (x, y) in a.hot_paths.iter().zip(b.hot_paths.iter()) {
        assert_eq!(x.node_path, y.node_path);
        assert_eq!(x.metric_value, y.metric_value);
        assert_eq!(x.rank, y.rank);
    }
}

#[test]
fn round_trip_reproduces_the_profile() {
    let m = sample_profile();
    let bytes = serialize(&m).unwrap();
    let back = deserialize(&bytes).unwrap();
    assert_models_equal(&m, &back);
}

#[test]
fn round_trip_of_empty_profile() {
    let events: Vec<TraceEvent> = Vec::new();
    let m = ProfileBuilder::new("0x0".to_string(), "stylusTracer".to_string())
        .build(&events)
        .unwrap();
    let bytes = serialize(&m).unwrap();
    let back = deserialize(&bytes).unwrap();
    assert_models_equal(&m, &back);
}

#[test]
fn truncated_document_is_rejected() {
    let m = sample_profile();
    let mut bytes = serialize(&m).unwrap();
    bytes.pop();
    assert_eq!(deserialize(&bytes).err(), Some(CodecError::MalformedDocument));
}

#[test]
fn trailing_bytes_are_rejected() {
    let m = sample_profile();
    let mut bytes = serialize(&m).unwrap();
    bytes.push(0);
    assert_eq!(deserialize(&bytes).err(), Some(CodecError::MalformedDocument));
}

#[test]
fn empty_bytes_are_rejected() {
    let bytes: Vec<u8> = Vec::new();
    assert_eq!(deserialize(&bytes).err(), Some(CodecError::MalformedDocument));
}

#[test]
fn non_ascii_label_cannot_be_serialized() {
    let mut m = sample_profile();
    m.nodes[1].label = "transf\u{00e9}r".to_string();
    assert_eq!(serialize(&m).err(), Some(CodecError::MalformedDocument));
}
