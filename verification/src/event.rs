//! Typed trace events and their raw, tracer-shaped precursors.

use vstd::prelude::*;

verus! {

/// The kind of one observed occurrence during execution.
///
/// `CallEnter`/`CallExit` open and close a call-tree node; `HostIoEnter`/
/// `HostIoExit` bracket a boundary crossing into the host runtime, which is
/// leaf cost of the enclosing call, never a node of its own.
#[derive(Clone, Copy, Debug, PartialEq, Eq, Structural)]
pub enum EventKind {
    CallEnter,
    CallExit,
    HostIoEnter,
    HostIoExit,
}

/// One normalized trace event, immutable once produced.
///
/// `ink_cost` is `None` when Ink accounting was not requested: "not
/// measured", never zero. `sequence_index` is the event's position in the
/// original stream and defines ordering.
#[derive(Debug)]
pub struct TraceEvent {
    pub kind: EventKind,
    pub label: String,
    pub gas_cost: u64,
    pub ink_cost: Option<u64>,
    pub sequence_index: usize,
}

/// The mathematical value of a [`TraceEvent`].
#[verifier::ext_equal]
pub ghost struct EventView {
    pub kind: EventKind,
    pub label: Seq<char>,
    pub gas_cost: int,
    pub ink_cost: Option<int>,
    pub sequence_index: int,
}

impl View for TraceEvent {
    type V = EventView;

    open spec fn view(&self) -> EventView {
        EventView {
            kind: self.kind,
            label: self.label@,
            gas_cost: self.gas_cost as int,
            ink_cost: match self.ink_cost {
                Some(v) => Some(v as int),
                None => None,
            },
            sequence_index: self.sequence_index as int,
        }
    }
}

impl DeepView for TraceEvent {
    type V = EventView;

    open spec fn deep_view(&self) -> EventView {
        self.view()
    }
}

/// One raw event as the boundary layer hands it over: the tracer-specific
/// document has already been flattened into plain values, but the kind is
/// still a free-form tag and no sequence index has been assigned.
#[derive(Debug)]
pub struct RawEvent {
    pub kind_tag: String,
    pub label: String,
    pub gas_cost: u64,
    pub ink_cost: Option<u64>,
}

/// The mathematical value of a [`RawEvent`].
#[verifier::ext_equal]
pub ghost struct RawEventView {
    pub kind_tag: Seq<char>,
    pub label: Seq<char>,
    pub gas_cost: int,
    pub ink_cost: Option<int>,
}

impl View for RawEvent {
    type V = RawEventView;

    open spec fn view(&self) -> RawEventView {
        RawEventView {
            kind_tag: self.kind_tag@,
            label: self.label@,
            gas_cost: self.gas_cost as int,
            ink_cost: match self.ink_cost {
                Some(v) => Some(v as int),
                None => None,
            },
        }
    }
}

impl DeepView for RawEvent {
    type V = RawEventView;

    open spec fn deep_view(&self) -> RawEventView {
        self.view()
    }
}

/// Total gas named by a sequence of events: the sum of every event's
/// `gas_cost`, whatever its kind.
pub open spec fn sum_gas(evs: Seq<EventView>) -> int
    decreases evs.len(),
{
    if evs.len() == 0 {
        0
    } else {
        sum_gas(evs.drop_last()) + evs.last().gas_cost
    }
}

/// Total Ink named by a sequence of events: `None` as soon as any event was
/// recorded without Ink accounting ("not measured" is never zero).
pub open spec fn sum_ink(evs: Seq<EventView>) -> Option<int>
    decreases evs.len(),
{
    if evs.len() == 0 {
        Some(0)
    } else {
        match (sum_ink(evs.drop_last()), evs.last().ink_cost) {
            (Some(a), Some(b)) => Some(a + b),
            _ => None,
        }
    }
}

/// The number of HostIO boundary crossings in a sequence of events: one per
/// `HostIoEnter`.
pub open spec fn count_hostio(evs: Seq<EventView>) -> int
    decreases evs.len(),
{
    if evs.len() == 0 {
        0
    } else {
        count_hostio(evs.drop_last()) + if evs.last().kind is HostIoEnter {
            1int
        } else {
            0int
        }
    }
}

} // verus!
