use stylus_trace_studio::builder::{ProfileBuilder, ProfileModel};
use stylus_trace_studio::event::{EventKind, TraceEvent};
use stylus_trace_studio::hotpath::{top_n, RankMetric};

fn ev(kind: EventKind, label: &str, gas: u64, idx: usize) -> TraceEvent {
    TraceEvent {
        kind,
        label: label.to_string(),
        gas_cost: gas,
        ink_cost: None,
        sequence_index: idx,
    }
}

fn two_branch_profile() -> ProfileModel {
    // root -> cheap (gas 5), root -> costly (gas 50 + child 20).
    let events = vec![
        ev(EventKind::CallEnter, "cheap", 5, 0),
        ev(EventKind::CallExit, "cheap", 0, 1),
        ev(EventKind::CallEnter, "costly", 50, 2),
        ev(EventKind::CallEnter, "child", 20, 3),
        ev(EventKind::CallExit, "child", 0, 4),
        ev(EventKind::CallExit, "costly", 0, 5),
    ];
    ProfileBuilder::new("0xabc".to_string(), "stylusTracer".to_string())
        .build(&events)
        .unwrap()
}

#[test]
fn ranks_paths_by_cumulative_gas_descending() {
    let m = two_branch_profile();
    let paths = top_n(&m, 10, RankMetric::Gas);
    // Whole transaction (75) > costly (70) > child (20) > cheap (5).
    assert_eq!(paths.len(), 4);
    assert_eq!(paths[0].node_path, vec!["0xabc".to_string()]);
    assert_eq!(paths[0].metric_value, 75);
    assert_eq!(paths[0].rank, 1);
    assert_eq!(
        paths[1].node_path,
        vec!["0xabc".to_string(), "costly".to_string()]
    );
    assert_eq!(paths[1].metric_value, 70);
    assert_eq!(paths[1].rank, 2);
    assert_eq!(
        paths[2].node_path,
        vec!["0xabc".to_string(), "costly".to_string(), "child".to_string()]
    );
    assert_eq!(paths[2].metric_value, 20);
    assert_eq!(
        paths[3].node_path,
        vec!["0xabc".to_string(), "cheap".to_string()]
    );
    assert_eq!(paths[3].metric_value, 5);
}

#[test]
fn returns_at_most_n_entries() {
    let m = two_branch_profile();
    let paths = top_n(&m, 2, RankMetric::Gas);
    assert_eq!(paths.len(), 2);
    assert_eq!(paths[0].metric_value, 75);
    assert_eq!(paths[1].metric_value, 70);
}

#[test]
fn two_calls_return_identical_results() {
    let m = two_branch_profile();
    let a = top_n(&m, 10, RankMetric::Gas);
    let b = top_n(&m, 10, RankMetric::Gas);
    assert_eq!(a.len(), b.len());
    for (x, y) in a.iter().zip(b.iter()) {
        assert_eq!(x.node_path, y.node_path);
        assert_eq!(x.metric_value, y.metric_value);
        assert_eq!(x.rank, y.rank);
    }
}

#[test]
fn score_ties_break_by_hostio_count_then_order() {
    // Both branches cost 10 gas, but "b" crosses a HostIO boundary.
    let events = vec![
        ev(EventKind::CallEnter, "a", 10, 0),
        ev(EventKind::CallExit, "a", 0, 1),
        ev(EventKind::CallEnter, "b", 5, 2),
        ev(EventKind::HostIoEnter, "storage_load", 5, 3),
        ev(EventKind::HostIoExit, "storage_load", 0, 4),
        ev(EventKind::CallExit, "b", 0, 5),
    ];
    let m = ProfileBuilder::new("0xabc".to_string(), "stylusTracer".to_string())
        .build(&events)
        .unwrap();
    let paths = top_n(&m, 10, RankMetric::Gas);
    assert_eq!(paths.len(), 3);
    // b (10 gas, 1 hostio) outranks a (10 gas, 0 hostio).
    assert_eq!(paths[1].node_path, vec!["0xabc".to_string(), "b".to_string()]);
    assert_eq!(paths[2].node_path, vec!["0xabc".to_string(), "a".to_string()]);
}

#[test]
fn hostio_metric_ranks_by_crossings() {
    let events = vec![
        ev(EventKind::CallEnter, "a", 100, 0),
        ev(EventKind::CallExit, "a", 0, 1),
        ev(EventKind::CallEnter, "b", 1, 2),
        ev(EventKind::HostIoEnter, "storage_load", 1, 3),
        ev(EventKind::HostIoExit, "storage_load", 0, 4),
        ev(EventKind::HostIoEnter, "storage_store", 1, 5),
        ev(EventKind::HostIoExit, "storage_store", 0, 6),
        ev(EventKind::CallExit, "b", 0, 7),
    ];
    let m = ProfileBuilder::new("0xabc".to_string(), "stylusTracer".to_string())
        .build(&events)
        .unwrap();
    let paths = top_n(&m, 2, RankMetric::HostIoCount);
    assert_eq!(paths[0].node_path, vec!["0xabc".to_string()]);
    assert_eq!(paths[0].metric_value, 2);
    assert_eq!(paths[1].node_path, vec!["0xabc".to_string(), "b".to_string()]);
    assert_eq!(paths[1].metric_value, 2);
}
