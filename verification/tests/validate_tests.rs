use stylus_trace_studio::builder::{ProfileBuilder, ProfileModel};
use stylus_trace_studio::codec::{deserialize, serialize};
use stylus_trace_studio::diff::validate_model;
use stylus_trace_studio::event::{EventKind, TraceEvent};
use stylus_trace_studio::hotpath::{top_n, RankMetric};

fn ev(kind: EventKind, label: &str, gas: u64, idx: usize) -> TraceEvent {
    TraceEvent {
        kind,
        label: label.to_string(),
        gas_cost: gas,
        ink_cost: None,
        sequence_index: idx,
    }
}

fn ranked_profile() -> ProfileModel {
    let events = vec![
        ev(EventKind::CallEnter, "transfer", 10, 0),
        ev(EventKind::CallEnter, "inner", 5, 1),
        ev(EventKind::CallExit, "inner", 0, 2),
        ev(EventKind::CallExit, "transfer", 1, 3),
    ];
    let mut m = ProfileBuilder::new("0xabc".to_string(), "stylusTracer".to_string())
        .build(&events)
        .unwrap();
    m.hot_paths = top_n(&m, 5, RankMetric::Gas);
    m
}

#[test]
fn built_and_ranked_profile_validates() {
    let m = ranked_profile();
    assert!(validate_model(&m));
}

#[test]
fn round_tripped_profile_still_validates() {
    let m = ranked_profile();
    let bytes = serialize(&m).unwrap();
    let back = deserialize(&bytes).unwrap();
    assert!(validate_model(&back));
}

#[test]
fn mismatched_total_is_invalid() {
    let mut m = ranked_profile();
    m.total_gas += 1;
    assert!(!validate_model(&m));
}

#[test]
fn forward_parent_link_is_invalid() {
    let mut m = ranked_profile();
    m.nodes[1].parent = 2;
    assert!(!validate_model(&m));
}

#[test]
fn out_of_range_child_is_invalid() {
    let mut m = ranked_profile();
    m.nodes[1].children.push(17);
    assert!(!validate_model(&m));
}

#[test]
fn wrong_rank_is_invalid() {
    let mut m = ranked_profile();
    m.hot_paths[0].rank = 7;
    assert!(!validate_model(&m));
}

#[test]
fn duplicate_hot_path_is_invalid() {
    let mut m = ranked_profile();
    m.hot_paths[1].node_path = m.hot_paths[0].node_path.clone();
    assert!(!validate_model(&m));
}

#[test]
fn tampered_document_can_be_caught_after_decoding() {
    // A document can carry any field values; decoding succeeds, the
    // validity check rejects it.
    let mut m = ranked_profile();
    m.nodes[2].parent = 2;
    let bytes = serialize(&m).unwrap();
    let back = deserialize(&bytes).unwrap();
    assert!(!validate_model(&back));
}
