//! Normalization of raw, tracer-shaped events into typed trace events.

use vstd::prelude::*;
use vstd::string::*;
use crate::event::{EventKind, TraceEvent, EventView, RawEvent, RawEventView};
use crate::errors::TraceError;
use crate::builder::{scan_fold, stream_ok};

verus! {

/// The typed kind a raw tag denotes, or `None` for an unknown tag.
pub open spec fn tag_kind(tag: Seq<char>) -> Option<EventKind> {
    if tag == "call_enter"@ {
        Some(EventKind::CallEnter)
    } else if tag == "call_exit"@ {
        Some(EventKind::CallExit)
    } else if tag == "hostio_enter"@ {
        Some(EventKind::HostIoEnter)
    } else if tag == "hostio_exit"@ {
        Some(EventKind::HostIoExit)
    } else {
        None
    }
}

/// Every raw event carries a known kind tag.
pub open spec fn raw_ok(rs: Seq<RawEventView>) -> bool {
    forall|k: int| 0 <= k < rs.len() ==> tag_kind((#[trigger] rs[k]).kind_tag) is Some
}

pub open spec fn tag_kind_val(tag: Seq<char>) -> EventKind {
    match tag_kind(tag) {
        Some(k) => k,
        None => EventKind::CallEnter,
    }
}

/// The typed stream a raw stream denotes: kinds resolved, costs carried
/// over unchanged (a missing Ink cost stays "not measured"), and sequence
/// indices assigned by position.
pub open spec fn spec_normalize(rs: Seq<RawEventView>) -> Seq<EventView> {
    Seq::new(
        rs.len(),
        |k: int|
            EventView {
                kind: tag_kind_val(rs[k].kind_tag),
                label: rs[k].label,
                gas_cost: rs[k].gas_cost,
                ink_cost: rs[k].ink_cost,
                sequence_index: k,
            },
    )
}

/// Whether a typed stream is balanced, decided executably.
pub fn check_balanced(events: &Vec<TraceEvent>) -> (r: bool)
    ensures
        r == stream_ok(events.deep_view()),
{
    let ghost evs = events.deep_view();
    let mut depth: usize = 0;
    let mut open: usize = 0;
    let mut i: usize = 0;
    proof {
        assert(evs.take(0) =~= Seq::<EventView>::empty());
    }
    while i < events.len()
        invariant
            i <= events.len(),
            evs == events.deep_view(),
            scan_fold(evs.take(i as int)).ok,
            depth as int == scan_fold(evs.take(i as int)).depth,
            open as int == scan_fold(evs.take(i as int)).open,
            depth <= i,
            open <= i,
        decreases events.len() - i,
    {
        proof {
            assert(evs.take(i as int + 1).drop_last() =~= evs.take(i as int));
            assert(evs.take(i as int + 1).last() == evs[i as int]);
            assert(evs[i as int] == events@[i as int].deep_view());
        }
        let ev = &events[i];
        match ev.kind {
            EventKind::CallEnter => {
                if open != 0 {
                    proof {
                        crate::builder::lemma_scan_not_ok_sticky(evs, i as int + 1);
                    }
                    return false;
                }
                depth = depth + 1;
            },
            EventKind::CallExit => {
                if open != 0 || depth == 0 {
                    proof {
                        crate::builder::lemma_scan_not_ok_sticky(evs, i as int + 1);
                    }
                    return false;
                }
                depth = depth - 1;
            },
            EventKind::HostIoEnter => {
                open = open + 1;
            },
            EventKind::HostIoExit => {
                if open == 0 {
                    proof {
                        crate::builder::lemma_scan_not_ok_sticky(evs, i as int + 1);
                    }
                    return false;
                }
                open = open - 1;
            },
        }
        i = i + 1;
    }
    proof {
        assert(evs.take(events@.len() as int) =~= evs);
    }
    depth == 0 && open == 0
}

/// Turns the raw, tracer-shaped stream into an ordered sequence of typed
/// events.
///
/// Fails with `MalformedTrace` exactly when some kind tag is unknown or the
/// resulting stream is unbalanced; on success the stream is exactly the one
/// the raw events denote ([`spec_normalize`]).
pub fn normalize(raw: &Vec<RawEvent>) -> (r: Result<Vec<TraceEvent>, TraceError>)
    ensures
        match r {
            Ok(es) => raw_ok(raw.deep_view()) && es.deep_view() == spec_normalize(raw.deep_view())
                && stream_ok(es.deep_view()),
            Err(e) => (!raw_ok(raw.deep_view()) || !stream_ok(spec_normalize(raw.deep_view())))
                && e == TraceError::MalformedTrace,
        },
{
    let ghost rs = raw.deep_view();
    let tag_call_enter = String::from_str("call_enter");
    let tag_call_exit = String::from_str("call_exit");
    let tag_hostio_enter = String::from_str("hostio_enter");
    let tag_hostio_exit = String::from_str("hostio_exit");
    let mut out: Vec<TraceEvent> = Vec::new();
    let mut i: usize = 0;
    while i < raw.len()
        invariant
            i <= raw.len(),
            rs == raw.deep_view(),
            tag_call_enter@ == "call_enter"@,
            tag_call_exit@ == "call_exit"@,
            tag_hostio_enter@ == "hostio_enter"@,
            tag_hostio_exit@ == "hostio_exit"@,
            out.deep_view() == spec_normalize(rs).take(i as int),
            forall|k: int| 0 <= k < i ==> tag_kind((#[trigger] rs[k]).kind_tag) is Some,
        decreases raw.len() - i,
    {
        proof {
            assert(rs[i as int] == raw@[i as int].deep_view());
            assert(out.deep_view().len() == out@.len());
            assert(out@.len() == i as int);
        }
        let rv = &raw[i];
        let kind: EventKind = if rv.kind_tag == tag_call_enter {
            EventKind::CallEnter
        } else if rv.kind_tag == tag_call_exit {
            EventKind::CallExit
        } else if rv.kind_tag == tag_hostio_enter {
            EventKind::HostIoEnter
        } else if rv.kind_tag == tag_hostio_exit {
            EventKind::HostIoExit
        } else {
            return Err(TraceError::MalformedTrace);
        };
        let ghost old_out = out@;
        let ev = TraceEvent {
            kind,
            label: rv.label.clone(),
            gas_cost: rv.gas_cost,
            ink_cost: rv.ink_cost,
            sequence_index: i,
        };
        out.push(ev);
        proof {
            assert(out@ == old_out.push(ev));
            assert(out.deep_view()[i as int] == out@[i as int].deep_view());
            assert(out.deep_view()[i as int] =~= spec_normalize(rs)[i as int]);
            assert(out.deep_view() =~~= spec_normalize(rs).take(i as int + 1));
        }
        i = i + 1;
    }
    proof {
        assert(spec_normalize(rs).take(raw@.len() as int) =~= spec_normalize(rs));
    }
    if check_balanced(&out) {
        Ok(out)
    } else {
        Err(TraceError::MalformedTrace)
    }
}

} // verus!
