use stylus_trace_studio::errors::TraceError;
use stylus_trace_studio::event::{EventKind, RawEvent};
use stylus_trace_studio::normalize::normalize;

fn raw(tag: &str, label: &str, gas: u64, ink: Option<u64>) -> RawEvent {
    RawEvent {
        kind_tag: tag.to_string(),
        label: label.to_string(),
        gas_cost: gas,
        ink_cost: ink,
    }
}

#[test]
fn known_tags_map_to_typed_kinds() {
    let rs = vec![
        raw("call_enter", "transfer", 10, Some(100000)),
        raw("hostio_enter", "storage_load", 3, None),
        raw("hostio_exit", "storage_load", 0, None),
        raw("call_exit", "transfer", 1, None),
    ];
    let es = normalize(&rs).unwrap();
    assert_eq!(es.len(), 4);
    assert_eq!(es[0].kind, EventKind::CallEnter);
    assert_eq!(es[1].kind, EventKind::HostIoEnter);
    assert_eq!(es[2].kind, EventKind::HostIoExit);
    assert_eq!(es[3].kind, EventKind::CallExit);
    assert_eq!(es[0].label, "transfer");
    assert_eq!(es[0].gas_cost, 10);
    assert_eq!(es[0].ink_cost, Some(100000));
    assert_eq!(es[1].ink_cost, None);
    // Sequence indices follow stream position.
    assert_eq!(es[0].sequence_index, 0);
    assert_eq!(es[3].sequence_index, 3);
}

#[test]
fn unknown_tag_is_malformed() {
    let rs = vec![raw("call_begin", "transfer", 10, None)];
    assert_eq!(normalize(&rs).err(), Some(TraceError::MalformedTrace));
}

#[test]
fn unbalanced_raw_stream_is_malformed() {
    let rs = vec![raw("call_enter", "transfer", 10, None)];
    assert_eq!(normalize(&rs).err(), Some(TraceError::MalformedTrace));
}

#[test]
fn empty_raw_stream_normalizes() {
    let rs: Vec<RawEvent> = Vec::new();
    let es = normalize(&rs).unwrap();
    assert!(es.is_empty());
}
