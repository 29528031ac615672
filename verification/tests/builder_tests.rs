use stylus_trace_studio::builder::ProfileBuilder;
use stylus_trace_studio::errors::TraceError;
use stylus_trace_studio::event::{EventKind, TraceEvent};

fn ev(kind: EventKind, label: &str, gas: u64, ink: Option<u64>, idx: usize) -> TraceEvent {
    TraceEvent {
        kind,
        label: label.to_string(),
        gas_cost: gas,
        ink_cost: ink,
        sequence_index: idx,
    }
}

fn builder() -> ProfileBuilder {
    ProfileBuilder::new("0xabc".to_string(), "stylusTracer".to_string())
}

#[test]
fn balanced_stream_builds_and_sums_gas() {
    // Root gets every event's gas: 10 + 3 + 2 + 2 + 1 = 18.
    let events = vec![
        ev(EventKind::CallEnter, "transfer", 10, None, 0),
        ev(EventKind::HostIoEnter, "storage_load", 3, None, 1),
        ev(EventKind::HostIoExit, "storage_load", 2, None, 2),
        ev(EventKind::CallEnter, "inner", 2, None, 3),
        ev(EventKind::CallExit, "inner", 0, None, 4),
        ev(EventKind::CallExit, "transfer", 1, None, 5),
    ];
    let m = builder().build(&events).unwrap();
    assert_eq!(m.total_gas, 18);
    assert_eq!(m.nodes[0].cumulative_gas, 18);
    assert_eq!(m.total_hostio_calls, 1);
    assert_eq!(m.nodes[0].hostio_count, 1);
    assert_eq!(m.transaction_hash, "0xabc");
    assert_eq!(m.tracer_name, "stylusTracer");
    // Root, transfer, inner.
    assert_eq!(m.nodes.len(), 3);
    assert_eq!(m.nodes[1].label, "transfer");
    assert_eq!(m.nodes[2].label, "inner");
    assert_eq!(m.nodes[2].parent, 1);
}

#[test]
fn empty_stream_builds_zero_profile() {
    let events: Vec<TraceEvent> = Vec::new();
    let m = builder().build(&events).unwrap();
    assert_eq!(m.total_gas, 0);
    assert_eq!(m.total_hostio_calls, 0);
    assert_eq!(m.nodes.len(), 1);
    // Nothing was ever measured, so Ink is "not measured", not zero.
    assert_eq!(m.total_ink, None);
    assert_eq!(m.nodes[0].self_ink, None);
    assert_eq!(m.nodes[0].cumulative_ink, None);
}

#[test]
fn unclosed_enter_is_unbalanced() {
    let events = vec![
        ev(EventKind::CallEnter, "transfer", 10, None, 0),
        ev(EventKind::CallEnter, "inner", 2, None, 1),
        ev(EventKind::CallExit, "inner", 0, None, 2),
    ];
    assert_eq!(builder().build(&events).err(), Some(TraceError::UnbalancedTrace));
}

#[test]
fn excess_exit_is_unbalanced() {
    let events = vec![
        ev(EventKind::CallEnter, "transfer", 10, None, 0),
        ev(EventKind::CallExit, "transfer", 0, None, 1),
        ev(EventKind::CallExit, "transfer", 0, None, 2),
    ];
    assert_eq!(builder().build(&events).err(), Some(TraceError::UnbalancedTrace));
}

#[test]
fn hostio_exit_without_enter_is_unbalanced() {
    let events = vec![ev(EventKind::HostIoExit, "storage_load", 1, None, 0)];
    assert_eq!(builder().build(&events).err(), Some(TraceError::UnbalancedTrace));
}

#[test]
fn hostio_left_open_is_unbalanced() {
    let events = vec![
        ev(EventKind::CallEnter, "transfer", 10, None, 0),
        ev(EventKind::HostIoEnter, "storage_load", 3, None, 1),
        ev(EventKind::CallExit, "transfer", 0, None, 2),
    ];
    assert_eq!(builder().build(&events).err(), Some(TraceError::UnbalancedTrace));
}

#[test]
fn recursion_depth_three_collapses_to_one_node() {
    let events = vec![
        ev(EventKind::CallEnter, "fib", 5, None, 0),
        ev(EventKind::CallEnter, "fib", 5, None, 1),
        ev(EventKind::CallEnter, "fib", 5, None, 2),
        ev(EventKind::CallExit, "fib", 0, None, 3),
        ev(EventKind::CallExit, "fib", 0, None, 4),
        ev(EventKind::CallExit, "fib", 0, None, 5),
    ];
    let m = builder().build(&events).unwrap();
    // Root plus a single collapsed node, not three siblings.
    assert_eq!(m.nodes.len(), 2);
    assert_eq!(m.nodes[1].label, "fib");
    assert_eq!(m.nodes[1].call_count, 3);
    assert_eq!(m.nodes[1].self_gas, 15);
}

#[test]
fn consecutive_sibling_calls_collapse() {
    let events = vec![
        ev(EventKind::CallEnter, "loop_body", 4, None, 0),
        ev(EventKind::CallExit, "loop_body", 0, None, 1),
        ev(EventKind::CallEnter, "loop_body", 4, None, 2),
        ev(EventKind::CallExit, "loop_body", 0, None, 3),
    ];
    let m = builder().build(&events).unwrap();
    assert_eq!(m.nodes.len(), 2);
    assert_eq!(m.nodes[1].call_count, 2);
    assert_eq!(m.nodes[1].self_gas, 8);
}

#[test]
fn missing_ink_is_not_measured_not_zero() {
    let events = vec![
        ev(EventKind::CallEnter, "transfer", 10, Some(100000), 0),
        ev(EventKind::CallExit, "transfer", 1, None, 1),
    ];
    let m = builder().build(&events).unwrap();
    assert_eq!(m.total_ink, None);
    assert_eq!(m.total_gas, 11);
    // The unmeasured total reaches the synthetic root's own Ink too.
    assert_eq!(m.nodes[0].self_ink, None);
    assert_eq!(m.nodes[0].cumulative_ink, None);
}

#[test]
fn inkless_trace_leaves_root_ink_unmeasured() {
    // No event carries Ink and none is attributed to the root directly; the
    // root's own Ink must still read "not measured", never "measured zero".
    let events = vec![
        ev(EventKind::CallEnter, "transfer", 10, None, 0),
        ev(EventKind::CallExit, "transfer", 1, None, 1),
    ];
    let m = builder().build(&events).unwrap();
    assert_eq!(m.total_ink, None);
    assert_eq!(m.nodes[0].self_ink, None);
    assert_eq!(m.nodes[0].cumulative_ink, None);
    assert_eq!(m.nodes[1].self_ink, None);
    assert_eq!(m.nodes[1].cumulative_ink, None);
}

#[test]
fn ink_sums_when_every_event_measures_it() {
    let events = vec![
        ev(EventKind::CallEnter, "transfer", 10, Some(100000), 0),
        ev(EventKind::HostIoEnter, "storage_load", 3, Some(30000), 1),
        ev(EventKind::HostIoExit, "storage_load", 0, Some(0), 2),
        ev(EventKind::CallExit, "transfer", 1, Some(10000), 3),
    ];
    let m = builder().build(&events).unwrap();
    assert_eq!(m.total_ink, Some(140000));
    assert_eq!(m.nodes[0].cumulative_ink, Some(140000));
    // With accounting on, the root genuinely accrued zero of its own.
    assert_eq!(m.nodes[0].self_ink, Some(0));
}

#[test]
fn hostio_cost_attributed_to_enclosing_node() {
    let events = vec![
        ev(EventKind::CallEnter, "transfer", 10, None, 0),
        ev(EventKind::HostIoEnter, "storage_load", 7, None, 1),
        ev(EventKind::HostIoExit, "storage_load", 2, None, 2),
        ev(EventKind::CallExit, "transfer", 0, None, 3),
    ];
    let m = builder().build(&events).unwrap();
    // HostIO spans never become nodes.
    assert_eq!(m.nodes.len(), 2);
    assert_eq!(m.nodes[1].self_gas, 19);
    assert_eq!(m.nodes[1].hostio_count, 1);
}

#[test]
fn cumulative_rolls_up_children() {
    let events = vec![
        ev(EventKind::CallEnter, "outer", 10, None, 0),
        ev(EventKind::CallEnter, "inner_a", 5, None, 1),
        ev(EventKind::CallExit, "inner_a", 0, None, 2),
        ev(EventKind::CallEnter, "inner_b", 3, None, 3),
        ev(EventKind::CallExit, "inner_b", 0, None, 4),
        ev(EventKind::CallExit, "outer", 2, None, 5),
    ];
    let m = builder().build(&events).unwrap();
    assert_eq!(m.nodes.len(), 4);
    let outer = &m.nodes[1];
    assert_eq!(outer.self_gas, 12);
    assert_eq!(outer.cumulative_gas, 20);
    assert_eq!(m.total_gas, 20);
}
