//! Call-tree profile construction from a normalized trace-event stream.
//!
//! The builder keeps an explicit stack of open nodes over an arena of
//! [`ProfileNode`]s (parent/child links are indices, the root is index 0).
//! The whole construction is mirrored by a specification-level fold
//! ([`build_fold`]), so `build`'s contract pins the produced profile exactly.

use vstd::prelude::*;
use crate::event::{EventKind, TraceEvent, EventView, sum_gas, sum_ink, count_hostio};
use crate::errors::TraceError;

verus! {

/// One call-tree node, held in the arena of a [`ProfileModel`].
///
/// `parent` is the arena index of the owning node (the root, index 0, names
/// itself). `children` holds arena indices in first-seen order. `self_*`
/// metrics are the cost attributed directly to this node; `cumulative_*` and
/// `hostio_count` cover the node's whole subtree; `self_hostio_count` is the
/// number of HostIO crossings attributed directly to this node.
/// `call_count` is the number of consecutive recursive or looped calls
/// collapsed into this node.
#[derive(Debug)]
pub struct ProfileNode {
    pub label: String,
    pub parent: usize,
    pub children: Vec<usize>,
    pub self_gas: u64,
    pub self_ink: Option<u64>,
    pub self_hostio_count: u64,
    pub cumulative_gas: u64,
    pub cumulative_ink: Option<u64>,
    pub hostio_count: u64,
    pub call_count: u64,
}

/// The mathematical value of a [`ProfileNode`].
#[verifier::ext_equal]
pub ghost struct NodeView {
    pub label: Seq<char>,
    pub parent: int,
    pub children: Seq<int>,
    pub self_gas: int,
    pub self_ink: Option<int>,
    pub self_hostio_count: int,
    pub cumulative_gas: int,
    pub cumulative_ink: Option<int>,
    pub hostio_count: int,
    pub call_count: int,
}

pub open spec fn opt_int(o: Option<u64>) -> Option<int> {
    match o {
        Some(v) => Some(v as int),
        None => None,
    }
}

impl View for ProfileNode {
    type V = NodeView;

    open spec fn view(&self) -> NodeView {
        NodeView {
            label: self.label@,
            parent: self.parent as int,
            children: self.children@.map_values(|c: usize| c as int),
            self_gas: self.self_gas as int,
            self_ink: opt_int(self.self_ink),
            self_hostio_count: self.self_hostio_count as int,
            cumulative_gas: self.cumulative_gas as int,
            cumulative_ink: opt_int(self.cumulative_ink),
            hostio_count: self.hostio_count as int,
            call_count: self.call_count as int,
        }
    }
}

impl DeepView for ProfileNode {
    type V = NodeView;

    open spec fn deep_view(&self) -> NodeView {
        self.view()
    }
}

/// One ranked root-to-node chain, produced by hot-path extraction.
#[derive(Debug)]
pub struct HotPath {
    pub node_path: Vec<String>,
    pub metric_value: u64,
    pub rank: usize,
}

/// The mathematical value of a [`HotPath`].
#[verifier::ext_equal]
pub ghost struct HotPathView {
    pub node_path: Seq<Seq<char>>,
    pub metric_value: int,
    pub rank: int,
}

impl View for HotPath {
    type V = HotPathView;

    open spec fn view(&self) -> HotPathView {
        HotPathView {
            node_path: self.node_path.deep_view(),
            metric_value: self.metric_value as int,
            rank: self.rank as int,
        }
    }
}

impl DeepView for HotPath {
    type V = HotPathView;

    open spec fn deep_view(&self) -> HotPathView {
        self.view()
    }
}

/// A finished, immutable profile: the call-tree arena plus summary metrics
/// and metadata. `hot_paths` is derived data (recomputable from the tree).
#[derive(Debug)]
pub struct ProfileModel {
    pub nodes: Vec<ProfileNode>,
    pub transaction_hash: String,
    pub tracer_name: String,
    pub total_gas: u64,
    pub total_ink: Option<u64>,
    pub total_hostio_calls: u64,
    pub hot_paths: Vec<HotPath>,
}

/// The mathematical value of a [`ProfileModel`].
#[verifier::ext_equal]
pub ghost struct ModelView {
    pub nodes: Seq<NodeView>,
    pub transaction_hash: Seq<char>,
    pub tracer_name: Seq<char>,
    pub total_gas: int,
    pub total_ink: Option<int>,
    pub total_hostio_calls: int,
    pub hot_paths: Seq<HotPathView>,
}

impl View for ProfileModel {
    type V = ModelView;

    open spec fn view(&self) -> ModelView {
        ModelView {
            nodes: self.nodes.deep_view(),
            transaction_hash: self.transaction_hash@,
            tracer_name: self.tracer_name@,
            total_gas: self.total_gas as int,
            total_ink: opt_int(self.total_ink),
            total_hostio_calls: self.total_hostio_calls as int,
            hot_paths: self.hot_paths.deep_view(),
        }
    }
}

/// Sum of two optional metrics: `None` ("not measured") poisons the result,
/// it is never treated as zero.
pub open spec fn add_opt(a: Option<int>, b: Option<int>) -> Option<int> {
    match (a, b) {
        (Some(x), Some(y)) => Some(x + y),
        _ => None,
    }
}

/// The value of an optional metric with `None` read as zero: an upper-bound
/// bookkeeping device, used only to rule out arithmetic overflow.
pub open spec fn ink0(o: Option<int>) -> int {
    match o {
        Some(v) => v,
        None => 0,
    }
}

/// Sum of `ink0` over a whole event sequence.
pub open spec fn sum_ink0(evs: Seq<EventView>) -> int
    decreases evs.len(),
{
    if evs.len() == 0 {
        0
    } else {
        sum_ink0(evs.drop_last()) + ink0(evs.last().ink_cost)
    }
}

/// Every event carries non-negative costs; true of any stream obtained by
/// viewing executable events.
pub open spec fn evs_wf(evs: Seq<EventView>) -> bool {
    forall|i: int|
        0 <= i < evs.len() ==> (#[trigger] evs[i]).gas_cost >= 0 && ink0(evs[i].ink_cost) >= 0
}

// ---------------------------------------------------------------------------
// The build automaton.
// ---------------------------------------------------------------------------

/// Specification-level state of the builder: the arena so far, the stack of
/// open node indices, the number of open HostIO spans, and a sticky failure
/// flag for structural (unbalanced) errors.
#[verifier::ext_equal]
pub ghost struct BuildState {
    pub nodes: Seq<NodeView>,
    pub stack: Seq<int>,
    pub open_hostio: int,
    pub failed: bool,
}

pub open spec fn root_node(tx: Seq<char>) -> NodeView {
    NodeView {
        label: tx,
        parent: 0,
        children: Seq::empty(),
        self_gas: 0,
        self_ink: Some(0),
        self_hostio_count: 0,
        cumulative_gas: 0,
        cumulative_ink: None,
        hostio_count: 0,
        call_count: 1,
    }
}

pub open spec fn fresh_node(ev: EventView, parent: int) -> NodeView {
    NodeView {
        label: ev.label,
        parent: parent,
        children: Seq::empty(),
        self_gas: ev.gas_cost,
        self_ink: ev.ink_cost,
        self_hostio_count: 0,
        cumulative_gas: 0,
        cumulative_ink: None,
        hostio_count: 0,
        call_count: 1,
    }
}

/// A node re-entered by a collapsed recursive or looped call: the call count
/// rises and the enter cost is attributed to it.
pub open spec fn reenter_node(n: NodeView, ev: EventView) -> NodeView {
    NodeView {
        call_count: n.call_count + 1,
        self_gas: n.self_gas + ev.gas_cost,
        self_ink: add_opt(n.self_ink, ev.ink_cost),
        ..n
    }
}

/// A node charged with leaf cost (a call exit, or a HostIO event; `h` is 1
/// exactly for a HostIO enter, which is one boundary crossing).
pub open spec fn charge_node(n: NodeView, ev: EventView, h: int) -> NodeView {
    NodeView {
        self_gas: n.self_gas + ev.gas_cost,
        self_ink: add_opt(n.self_ink, ev.ink_cost),
        self_hostio_count: n.self_hostio_count + h,
        ..n
    }
}

pub open spec fn add_child(n: NodeView, c: int) -> NodeView {
    NodeView { children: n.children.push(c), ..n }
}

pub open spec fn build_init(tx: Seq<char>) -> BuildState {
    BuildState {
        nodes: seq![root_node(tx)],
        stack: seq![0],
        open_hostio: 0,
        failed: false,
    }
}

pub open spec fn fail_state(st: BuildState) -> BuildState {
    BuildState { failed: true, ..st }
}

/// One step of the builder.
///
/// On `CallEnter`: re-enter the open node when its label recurs (consecutive
/// recursion), or the immediately preceding sibling when its label recurs
/// (consecutive looped calls); otherwise push a fresh child of the stack
/// top. On `CallExit`: charge the exit cost and pop. HostIO events are leaf
/// cost of the stack top and never become nodes. A call event inside an open
/// HostIO span, an exit with nothing open, or a pop of the root is a
/// structural failure.
pub open spec fn build_step(st: BuildState, ev: EventView) -> BuildState {
    if st.failed {
        st
    } else {
        match ev.kind {
            EventKind::CallEnter => {
                if st.open_hostio != 0 {
                    fail_state(st)
                } else {
                    let top = st.stack.last();
                    if top != 0 && st.nodes[top].label == ev.label {
                        BuildState {
                            nodes: st.nodes.update(top, reenter_node(st.nodes[top], ev)),
                            stack: st.stack.push(top),
                            ..st
                        }
                    } else if st.nodes[top].children.len() > 0
                        && st.nodes[st.nodes[top].children.last()].label == ev.label {
                        let c = st.nodes[top].children.last();
                        BuildState {
                            nodes: st.nodes.update(c, reenter_node(st.nodes[c], ev)),
                            stack: st.stack.push(c),
                            ..st
                        }
                    } else {
                        let idx = st.nodes.len() as int;
                        BuildState {
                            nodes: st.nodes.update(top, add_child(st.nodes[top], idx)).push(
                                fresh_node(ev, top),
                            ),
                            stack: st.stack.push(idx),
                            ..st
                        }
                    }
                }
            },
            EventKind::CallExit => {
                if st.open_hostio != 0 || st.stack.len() <= 1 {
                    fail_state(st)
                } else {
                    let top = st.stack.last();
                    BuildState {
                        nodes: st.nodes.update(top, charge_node(st.nodes[top], ev, 0)),
                        stack: st.stack.drop_last(),
                        ..st
                    }
                }
            },
            EventKind::HostIoEnter => {
                let top = st.stack.last();
                BuildState {
                    nodes: st.nodes.update(top, charge_node(st.nodes[top], ev, 1)),
                    open_hostio: st.open_hostio + 1,
                    ..st
                }
            },
            EventKind::HostIoExit => {
                if st.open_hostio == 0 {
                    fail_state(st)
                } else {
                    let top = st.stack.last();
                    BuildState {
                        nodes: st.nodes.update(top, charge_node(st.nodes[top], ev, 0)),
                        open_hostio: st.open_hostio - 1,
                        ..st
                    }
                }
            },
        }
    }
}

/// The whole build automaton folded over an event sequence.
pub open spec fn build_fold(evs: Seq<EventView>, tx: Seq<char>) -> BuildState
    decreases evs.len(),
{
    if evs.len() == 0 {
        build_init(tx)
    } else {
        build_step(build_fold(evs.drop_last(), tx), evs.last())
    }
}

// ---------------------------------------------------------------------------
// Balance of a stream, independent of labels.
// ---------------------------------------------------------------------------

/// Specification-level balance scanner: call depth, open HostIO spans, and a
/// sticky well-formedness flag.
#[verifier::ext_equal]
pub ghost struct ScanState {
    pub depth: int,
    pub open: int,
    pub ok: bool,
}

pub open spec fn scan_step(s: ScanState, ev: EventView) -> ScanState {
    if !s.ok {
        s
    } else {
        match ev.kind {
            EventKind::CallEnter => {
                if s.open != 0 {
                    ScanState { ok: false, ..s }
                } else {
                    ScanState { depth: s.depth + 1, ..s }
                }
            },
            EventKind::CallExit => {
                if s.open != 0 || s.depth <= 0 {
                    ScanState { ok: false, ..s }
                } else {
                    ScanState { depth: s.depth - 1, ..s }
                }
            },
            EventKind::HostIoEnter => ScanState { open: s.open + 1, ..s },
            EventKind::HostIoExit => {
                if s.open <= 0 {
                    ScanState { ok: false, ..s }
                } else {
                    ScanState { open: s.open - 1, ..s }
                }
            },
        }
    }
}

pub open spec fn scan_fold(evs: Seq<EventView>) -> ScanState
    decreases evs.len(),
{
    if evs.len() == 0 {
        ScanState { depth: 0, open: 0, ok: true }
    } else {
        scan_step(scan_fold(evs.drop_last()), evs.last())
    }
}

/// A stream is balanced when every enter is eventually closed by a matching
/// exit and no exit arrives without an open enter; exactly these streams
/// yield a profile.
pub open spec fn stream_ok(evs: Seq<EventView>) -> bool {
    let s = scan_fold(evs);
    s.ok && s.depth == 0 && s.open == 0
}

// ---------------------------------------------------------------------------
// Sums over the arena's directly-attributed costs.
// ---------------------------------------------------------------------------

pub open spec fn nodes_self_gas_sum(ns: Seq<NodeView>) -> int
    decreases ns.len(),
{
    if ns.len() == 0 {
        0
    } else {
        nodes_self_gas_sum(ns.drop_last()) + ns.last().self_gas
    }
}

pub open spec fn nodes_self_ink_sum(ns: Seq<NodeView>) -> Option<int>
    decreases ns.len(),
{
    if ns.len() == 0 {
        Some(0)
    } else {
        add_opt(nodes_self_ink_sum(ns.drop_last()), ns.last().self_ink)
    }
}

pub open spec fn nodes_self_ink0_sum(ns: Seq<NodeView>) -> int
    decreases ns.len(),
{
    if ns.len() == 0 {
        0
    } else {
        nodes_self_ink0_sum(ns.drop_last()) + ink0(ns.last().self_ink)
    }
}

pub open spec fn nodes_self_hostio_sum(ns: Seq<NodeView>) -> int
    decreases ns.len(),
{
    if ns.len() == 0 {
        0
    } else {
        nodes_self_hostio_sum(ns.drop_last()) + ns.last().self_hostio_count
    }
}

/// Structural well-formedness of the arena: one root at index 0 naming
/// itself as parent, every other node naming a lower-indexed parent, every
/// child index valid and greater than its parent's, and non-negative
/// directly-attributed metrics.
pub open spec fn nodes_wf(ns: Seq<NodeView>) -> bool {
    &&& ns.len() >= 1
    &&& ns[0].parent == 0
    &&& forall|j: int| 1 <= j < ns.len() ==> 0 <= (#[trigger] ns[j]).parent < j
    &&& forall|i: int, k: int|
        0 <= i < ns.len() && 0 <= k < ns[i].children.len() ==> i < #[trigger] ns[i].children[k]
            < ns.len()
    &&& forall|j: int|
        0 <= j < ns.len() ==> (#[trigger] ns[j]).self_gas >= 0 && ink0(ns[j].self_ink) >= 0
            && ns[j].self_hostio_count >= 0 && ns[j].call_count >= 1
}

// ---------------------------------------------------------------------------
// Facts about the sums.
// ---------------------------------------------------------------------------

proof fn lemma_gas_sum_push(ns: Seq<NodeView>, n: NodeView)
    ensures
        nodes_self_gas_sum(ns.push(n)) == nodes_self_gas_sum(ns) + n.self_gas,
{
    assert(ns.push(n).drop_last() =~= ns);
}

proof fn lemma_gas_sum_update(ns: Seq<NodeView>, j: int, n2: NodeView)
    requires
        0 <= j < ns.len(),
    ensures
        nodes_self_gas_sum(ns.update(j, n2)) == nodes_self_gas_sum(ns) - ns[j].self_gas
            + n2.self_gas,
    decreases ns.len(),
{
    let u = ns.update(j, n2);
    if j == ns.len() - 1 {
        assert(u.drop_last() =~= ns.drop_last());
        assert(u.last() == n2);
    } else {
        assert(u.drop_last() =~= ns.drop_last().update(j, n2));
        assert(u.last() == ns.last());
        lemma_gas_sum_update(ns.drop_last(), j, n2);
    }
}

proof fn lemma_ink_sum_push(ns: Seq<NodeView>, n: NodeView)
    ensures
        nodes_self_ink_sum(ns.push(n)) == add_opt(nodes_self_ink_sum(ns), n.self_ink),
{
    assert(ns.push(n).drop_last() =~= ns);
}

proof fn lemma_ink_sum_update(ns: Seq<NodeView>, j: int, n2: NodeView, x: Option<int>)
    requires
        0 <= j < ns.len(),
        n2.self_ink == add_opt(ns[j].self_ink, x),
    ensures
        nodes_self_ink_sum(ns.update(j, n2)) == add_opt(nodes_self_ink_sum(ns), x),
    decreases ns.len(),
{
    let u = ns.update(j, n2);
    if j == ns.len() - 1 {
        assert(u.drop_last() =~= ns.drop_last());
        assert(u.last() == n2);
    } else {
        assert(u.drop_last() =~= ns.drop_last().update(j, n2));
        assert(u.last() == ns.last());
        lemma_ink_sum_update(ns.drop_last(), j, n2, x);
    }
}

proof fn lemma_ink0_sum_push(ns: Seq<NodeView>, n: NodeView)
    ensures
        nodes_self_ink0_sum(ns.push(n)) == nodes_self_ink0_sum(ns) + ink0(n.self_ink),
{
    assert(ns.push(n).drop_last() =~= ns);
}

proof fn lemma_ink0_sum_update(ns: Seq<NodeView>, j: int, n2: NodeView, d: int)
    requires
        0 <= j < ns.len(),
        ink0(n2.self_ink) <= ink0(ns[j].self_ink) + d,
    ensures
        nodes_self_ink0_sum(ns.update(j, n2)) <= nodes_self_ink0_sum(ns) + d,
    decreases ns.len(),
{
    let u = ns.update(j, n2);
    if j == ns.len() - 1 {
        assert(u.drop_last() =~= ns.drop_last());
        assert(u.last() == n2);
    } else {
        assert(u.drop_last() =~= ns.drop_last().update(j, n2));
        assert(u.last() == ns.last());
        lemma_ink0_sum_update(ns.drop_last(), j, n2, d);
    }
}

proof fn lemma_hostio_sum_push(ns: Seq<NodeView>, n: NodeView)
    ensures
        nodes_self_hostio_sum(ns.push(n)) == nodes_self_hostio_sum(ns) + n.self_hostio_count,
{
    assert(ns.push(n).drop_last() =~= ns);
}

proof fn lemma_hostio_sum_update(ns: Seq<NodeView>, j: int, n2: NodeView)
    requires
        0 <= j < ns.len(),
    ensures
        nodes_self_hostio_sum(ns.update(j, n2)) == nodes_self_hostio_sum(ns)
            - ns[j].self_hostio_count + n2.self_hostio_count,
    decreases ns.len(),
{
    let u = ns.update(j, n2);
    if j == ns.len() - 1 {
        assert(u.drop_last() =~= ns.drop_last());
        assert(u.last() == n2);
    } else {
        assert(u.drop_last() =~= ns.drop_last().update(j, n2));
        assert(u.last() == ns.last());
        lemma_hostio_sum_update(ns.drop_last(), j, n2);
    }
}

proof fn lemma_gas_sum_nonneg(ns: Seq<NodeView>)
    requires
        forall|j: int| 0 <= j < ns.len() ==> (#[trigger] ns[j]).self_gas >= 0,
    ensures
        nodes_self_gas_sum(ns) >= 0,
    decreases ns.len(),
{
    if ns.len() > 0 {
        lemma_gas_sum_nonneg(ns.drop_last());
    }
}

proof fn lemma_ink0_sum_nonneg(ns: Seq<NodeView>)
    requires
        forall|j: int| 0 <= j < ns.len() ==> ink0((#[trigger] ns[j]).self_ink) >= 0,
    ensures
        nodes_self_ink0_sum(ns) >= 0,
    decreases ns.len(),
{
    if ns.len() > 0 {
        lemma_ink0_sum_nonneg(ns.drop_last());
    }
}

proof fn lemma_hostio_sum_nonneg(ns: Seq<NodeView>)
    requires
        forall|j: int| 0 <= j < ns.len() ==> (#[trigger] ns[j]).self_hostio_count >= 0,
    ensures
        nodes_self_hostio_sum(ns) >= 0,
    decreases ns.len(),
{
    if ns.len() > 0 {
        lemma_hostio_sum_nonneg(ns.drop_last());
    }
}

proof fn lemma_gas_elem_le(ns: Seq<NodeView>, j: int)
    requires
        forall|k: int| 0 <= k < ns.len() ==> (#[trigger] ns[k]).self_gas >= 0,
        0 <= j < ns.len(),
    ensures
        ns[j].self_gas <= nodes_self_gas_sum(ns),
    decreases ns.len(),
{
    if j == ns.len() - 1 {
        lemma_gas_sum_nonneg(ns.drop_last());
    } else {
        lemma_gas_elem_le(ns.drop_last(), j);
    }
}

proof fn lemma_ink0_elem_le(ns: Seq<NodeView>, j: int)
    requires
        forall|k: int| 0 <= k < ns.len() ==> ink0((#[trigger] ns[k]).self_ink) >= 0,
        0 <= j < ns.len(),
    ensures
        ink0(ns[j].self_ink) <= nodes_self_ink0_sum(ns),
    decreases ns.len(),
{
    if j == ns.len() - 1 {
        lemma_ink0_sum_nonneg(ns.drop_last());
    } else {
        lemma_ink0_elem_le(ns.drop_last(), j);
    }
}

proof fn lemma_hostio_elem_le(ns: Seq<NodeView>, j: int)
    requires
        forall|k: int| 0 <= k < ns.len() ==> (#[trigger] ns[k]).self_hostio_count >= 0,
        0 <= j < ns.len(),
    ensures
        ns[j].self_hostio_count <= nodes_self_hostio_sum(ns),
    decreases ns.len(),
{
    if j == ns.len() - 1 {
        lemma_hostio_sum_nonneg(ns.drop_last());
    } else {
        lemma_hostio_elem_le(ns.drop_last(), j);
    }
}

// ---------------------------------------------------------------------------
// Facts about event-sequence prefixes.
// ---------------------------------------------------------------------------

pub proof fn lemma_sum_gas_take_le(evs: Seq<EventView>, i: int)
    requires
        evs_wf(evs),
        0 <= i <= evs.len(),
    ensures
        sum_gas(evs.take(i)) <= sum_gas(evs),
    decreases evs.len() - i,
{
    if i == evs.len() {
        assert(evs.take(i) =~= evs);
    } else {
        assert(evs.take(i + 1).drop_last() =~= evs.take(i));
        assert(evs.take(i + 1).last() == evs[i]);
        lemma_sum_gas_take_le(evs, i + 1);
    }
}

pub proof fn lemma_sum_ink0_take_le(evs: Seq<EventView>, i: int)
    requires
        evs_wf(evs),
        0 <= i <= evs.len(),
    ensures
        sum_ink0(evs.take(i)) <= sum_ink0(evs),
    decreases evs.len() - i,
{
    if i == evs.len() {
        assert(evs.take(i) =~= evs);
    } else {
        assert(evs.take(i + 1).drop_last() =~= evs.take(i));
        assert(evs.take(i + 1).last() == evs[i]);
        lemma_sum_ink0_take_le(evs, i + 1);
    }
}

pub proof fn lemma_count_hostio_le_len(evs: Seq<EventView>)
    ensures
        0 <= count_hostio(evs) <= evs.len(),
    decreases evs.len(),
{
    if evs.len() > 0 {
        lemma_count_hostio_le_len(evs.drop_last());
    }
}

pub proof fn lemma_scan_not_ok_sticky(evs: Seq<EventView>, i: int)
    requires
        0 <= i <= evs.len(),
        !scan_fold(evs.take(i)).ok,
    ensures
        !scan_fold(evs).ok,
    decreases evs.len() - i,
{
    if i == evs.len() {
        assert(evs.take(i) =~= evs);
    } else {
        assert(evs.take(i + 1).drop_last() =~= evs.take(i));
        assert(evs.take(i + 1).last() == evs[i]);
        lemma_scan_not_ok_sticky(evs, i + 1);
    }
}

// ---------------------------------------------------------------------------
// The master invariant of the build automaton.
// ---------------------------------------------------------------------------

/// Everything that holds of the automaton's state after any well-formed
/// event sequence: correspondence with the balance scanner, structural
/// well-formedness of the arena, and conservation of the directly-attributed
/// metric sums.
pub proof fn lemma_fold_invariants(evs: Seq<EventView>, tx: Seq<char>)
    requires
        evs_wf(evs),
    ensures
        ({
            let st = build_fold(evs, tx);
            let sc = scan_fold(evs);
            &&& st.failed == !sc.ok
            &&& (!st.failed ==> {
                &&& st.stack.len() == sc.depth + 1
                &&& st.open_hostio == sc.open
                &&& sc.depth >= 0
                &&& 0 <= sc.open <= count_hostio(evs)
                &&& nodes_wf(st.nodes)
                &&& st.stack[0] == 0
                &&& forall|k: int|
                    0 <= k < st.stack.len() ==> 0 <= #[trigger] st.stack[k] < st.nodes.len()
                &&& st.nodes.len() <= 1 + evs.len()
                &&& forall|j: int|
                    0 <= j < st.nodes.len() ==> (#[trigger] st.nodes[j]).call_count <= 1
                        + evs.len()
                &&& nodes_self_gas_sum(st.nodes) == sum_gas(evs)
                &&& nodes_self_ink_sum(st.nodes) == sum_ink(evs)
                &&& nodes_self_ink0_sum(st.nodes) <= sum_ink0(evs)
                &&& nodes_self_hostio_sum(st.nodes) == count_hostio(evs)
            })
        }),
    decreases evs.len(),
{
    if evs.len() == 0 {
        let st = build_init(tx);
        assert(st.nodes.drop_last() =~= Seq::<NodeView>::empty());
        assert(nodes_self_gas_sum(Seq::<NodeView>::empty()) == 0);
        assert(nodes_self_ink_sum(Seq::<NodeView>::empty()) == Some(0int));
        assert(nodes_self_ink0_sum(Seq::<NodeView>::empty()) == 0);
        assert(nodes_self_hostio_sum(Seq::<NodeView>::empty()) == 0);
        assert(nodes_self_gas_sum(st.nodes) == 0);
        assert(nodes_self_ink_sum(st.nodes) == Some(0int));
        assert(nodes_self_ink0_sum(st.nodes) == 0);
        assert(nodes_self_hostio_sum(st.nodes) == 0);
        assert(st.stack[0] == 0);
        assert(nodes_wf(st.nodes));
    } else {
        let prev = evs.drop_last();
        let ev = evs.last();
        assert(evs_wf(prev)) by {
            assert(forall|i: int| 0 <= i < prev.len() ==> prev[i] == evs[i]);
        }
        lemma_fold_invariants(prev, tx);
        let st = build_fold(prev, tx);
        let sc = scan_fold(prev);
        let stn = build_fold(evs, tx);
        assert(stn == build_step(st, ev));
        assert(evs[evs.len() - 1] == ev);
        assert(ev.gas_cost >= 0 && ink0(ev.ink_cost) >= 0);
        assert(sum_gas(evs) == sum_gas(prev) + ev.gas_cost);
        assert(sum_ink(evs) == add_opt(sum_ink(prev), ev.ink_cost));
        assert(sum_ink0(evs) == sum_ink0(prev) + ink0(ev.ink_cost));
        if !st.failed {
            match ev.kind {
                EventKind::CallEnter => {
                    if st.open_hostio == 0 {
                        let top = st.stack.last();
                        if top != 0 && st.nodes[top].label == ev.label {
                            let n2 = reenter_node(st.nodes[top], ev);
                            lemma_gas_sum_update(st.nodes, top, n2);
                            lemma_ink_sum_update(st.nodes, top, n2, ev.ink_cost);
                            lemma_ink0_sum_update(st.nodes, top, n2, ink0(ev.ink_cost));
                            lemma_hostio_sum_update(st.nodes, top, n2);
                            assert(stn.nodes == st.nodes.update(top, n2));
                            assert(nodes_self_gas_sum(stn.nodes) == sum_gas(evs));
                        } else if st.nodes[top].children.len() > 0
                            && st.nodes[st.nodes[top].children.last()].label == ev.label {
                            let c = st.nodes[top].children.last();
                            let n2 = reenter_node(st.nodes[c], ev);
                            lemma_gas_sum_update(st.nodes, c, n2);
                            lemma_ink_sum_update(st.nodes, c, n2, ev.ink_cost);
                            lemma_ink0_sum_update(st.nodes, c, n2, ink0(ev.ink_cost));
                            lemma_hostio_sum_update(st.nodes, c, n2);
                            assert(stn.nodes == st.nodes.update(c, n2));
                            assert(nodes_self_gas_sum(stn.nodes) == sum_gas(evs));
                        } else {
                            let idx = st.nodes.len() as int;
                            let n2 = add_child(st.nodes[top], idx);
                            let mid = st.nodes.update(top, n2);
                            lemma_gas_sum_update(st.nodes, top, n2);
                            lemma_ink_sum_update(st.nodes, top, n2, Some(0));
                            lemma_ink0_sum_update(st.nodes, top, n2, 0);
                            lemma_hostio_sum_update(st.nodes, top, n2);
                            lemma_gas_sum_push(mid, fresh_node(ev, top));
                            lemma_ink_sum_push(mid, fresh_node(ev, top));
                            lemma_ink0_sum_push(mid, fresh_node(ev, top));
                            lemma_hostio_sum_push(mid, fresh_node(ev, top));
                            assert(stn.nodes == mid.push(fresh_node(ev, top)));
                            assert(nodes_self_gas_sum(stn.nodes) == sum_gas(evs));
                        }
                    }
                },
                EventKind::CallExit => {
                    if st.open_hostio == 0 && st.stack.len() > 1 {
                        let top = st.stack.last();
                        let n2 = charge_node(st.nodes[top], ev, 0);
                        lemma_gas_sum_update(st.nodes, top, n2);
                        lemma_ink_sum_update(st.nodes, top, n2, ev.ink_cost);
                        lemma_ink0_sum_update(st.nodes, top, n2, ink0(ev.ink_cost));
                        lemma_hostio_sum_update(st.nodes, top, n2);
                        assert(stn.nodes == st.nodes.update(top, n2));
                        assert(nodes_self_gas_sum(stn.nodes) == sum_gas(evs));
                    }
                },
                EventKind::HostIoEnter => {
                    let top = st.stack.last();
                    let n2 = charge_node(st.nodes[top], ev, 1);
                    lemma_gas_sum_update(st.nodes, top, n2);
                    lemma_ink_sum_update(st.nodes, top, n2, ev.ink_cost);
                    lemma_ink0_sum_update(st.nodes, top, n2, ink0(ev.ink_cost));
                    lemma_hostio_sum_update(st.nodes, top, n2);
                    assert(stn.nodes == st.nodes.update(top, n2));
                    assert(nodes_self_gas_sum(stn.nodes) == sum_gas(evs));
                },
                EventKind::HostIoExit => {
                    if st.open_hostio != 0 {
                        let top = st.stack.last();
                        let n2 = charge_node(st.nodes[top], ev, 0);
                        lemma_gas_sum_update(st.nodes, top, n2);
                        lemma_ink_sum_update(st.nodes, top, n2, ev.ink_cost);
                        lemma_ink0_sum_update(st.nodes, top, n2, ink0(ev.ink_cost));
                        lemma_hostio_sum_update(st.nodes, top, n2);
                        assert(stn.nodes == st.nodes.update(top, n2));
                        assert(nodes_self_gas_sum(stn.nodes) == sum_gas(evs));
                    }
                },
            }
        }
    }
}

// ---------------------------------------------------------------------------
// Finalization: cumulative (subtree) metrics.
// ---------------------------------------------------------------------------

/// Addition capped at `u64::MAX`; the cumulative rollup uses it so that the
/// specification stays total (the cap is unreachable for any stream whose
/// gas total fits the metric width).
pub open spec fn cap_add(a: int, b: int) -> int {
    if a + b > u64::MAX {
        u64::MAX as int
    } else {
        a + b
    }
}

pub open spec fn cap_add_opt(a: Option<int>, b: Option<int>) -> Option<int> {
    match (a, b) {
        (Some(x), Some(y)) => Some(cap_add(x, y)),
        _ => None,
    }
}

/// Fold of a node's children's cumulative gas onto `base` (its self gas).
pub open spec fn kids_cum_gas(p: Seq<NodeView>, cs: Seq<int>, base: int) -> int
    decreases cs.len(),
{
    if cs.len() == 0 {
        base
    } else {
        let c = cs.last();
        let v = if 0 <= c < p.len() {
            p[c].cumulative_gas
        } else {
            0
        };
        cap_add(kids_cum_gas(p, cs.drop_last(), base), v)
    }
}

pub open spec fn kids_cum_ink(p: Seq<NodeView>, cs: Seq<int>, base: Option<int>) -> Option<int>
    decreases cs.len(),
{
    if cs.len() == 0 {
        base
    } else {
        let c = cs.last();
        let v = if 0 <= c < p.len() {
            p[c].cumulative_ink
        } else {
            Some(0)
        };
        cap_add_opt(kids_cum_ink(p, cs.drop_last(), base), v)
    }
}

pub open spec fn kids_cum_hostio(p: Seq<NodeView>, cs: Seq<int>, base: int) -> int
    decreases cs.len(),
{
    if cs.len() == 0 {
        base
    } else {
        let c = cs.last();
        let v = if 0 <= c < p.len() {
            p[c].hostio_count
        } else {
            0
        };
        cap_add(kids_cum_hostio(p, cs.drop_last(), base), v)
    }
}

pub open spec fn node_with_cums(n: NodeView, p: Seq<NodeView>) -> NodeView {
    NodeView {
        cumulative_gas: kids_cum_gas(p, n.children, n.self_gas),
        cumulative_ink: kids_cum_ink(p, n.children, n.self_ink),
        hostio_count: kids_cum_hostio(p, n.children, n.self_hostio_count),
        ..n
    }
}

/// One bottom-up rollup pass over the arena, highest index first, down to
/// index `i` (the root, index 0, is summarized separately over the whole
/// arena).
pub open spec fn pass_from(ns: Seq<NodeView>, i: int) -> Seq<NodeView>
    decreases ns.len() - i,
    when 1 <= i <= ns.len()
{
    if i >= ns.len() {
        ns
    } else {
        let p = pass_from(ns, i + 1);
        p.update(i, node_with_cums(p[i], p))
    }
}

/// When the Ink total is "not measured", the synthetic root's
/// directly-attributed Ink is "not measured" as well: it must never read as
/// zero merely because no event was attributed to the root itself.
pub open spec fn set_root(p: Seq<NodeView>, g: int, ik: Option<int>, h: int) -> Seq<NodeView> {
    p.update(
        0,
        NodeView {
            cumulative_gas: g,
            cumulative_ink: ik,
            hostio_count: h,
            self_ink: if ik is Some {
                p[0].self_ink
            } else {
                None
            },
            ..p[0]
        },
    )
}

/// The finished arena: rollup pass for every non-root node, then the root's
/// cumulative metrics, which cover the whole transaction, as the plain sums
/// of everything directly attributed anywhere.
pub open spec fn spec_finalize(ns: Seq<NodeView>, ink: Option<int>) -> Seq<NodeView> {
    set_root(pass_from(ns, 1), nodes_self_gas_sum(ns), ink, nodes_self_hostio_sum(ns))
}

/// The profile's Ink total: `None` ("not measured") when the stream is
/// empty — nothing was ever measured — or when any attributed cost lacked
/// Ink; otherwise the measured sum.
pub open spec fn ink_total(evs: Seq<EventView>, ns: Seq<NodeView>) -> Option<int> {
    if evs.len() == 0 {
        None
    } else {
        nodes_self_ink_sum(ns)
    }
}

/// The profile a well-formed balanced stream denotes: the exact value
/// [`ProfileBuilder::build`] returns.
pub open spec fn spec_profile(evs: Seq<EventView>, tx: Seq<char>, tracer: Seq<char>) -> ModelView {
    let st = build_fold(evs, tx);
    ModelView {
        nodes: spec_finalize(st.nodes, ink_total(evs, st.nodes)),
        transaction_hash: tx,
        tracer_name: tracer,
        total_gas: nodes_self_gas_sum(st.nodes),
        total_ink: ink_total(evs, st.nodes),
        total_hostio_calls: nodes_self_hostio_sum(st.nodes),
        hot_paths: Seq::empty(),
    }
}

/// Well-formedness of a finished profile: a structurally sound arena whose
/// summary metrics agree with the root's cumulative metrics.
pub open spec fn model_wf(m: ModelView) -> bool {
    &&& nodes_wf(m.nodes)
    &&& m.total_gas == m.nodes[0].cumulative_gas
    &&& m.total_ink == m.nodes[0].cumulative_ink
    &&& m.total_hostio_calls == m.nodes[0].hostio_count
}

/// The rollup pass touches only cumulative fields.
proof fn lemma_pass_preserves(ns: Seq<NodeView>, i: int)
    requires
        1 <= i <= ns.len(),
    ensures
        pass_from(ns, i).len() == ns.len(),
        forall|j: int|
            #![trigger pass_from(ns, i)[j]]
            0 <= j < ns.len() ==> {
                let p = pass_from(ns, i);
                &&& p[j].label == ns[j].label
                &&& p[j].parent == ns[j].parent
                &&& p[j].children == ns[j].children
                &&& p[j].self_gas == ns[j].self_gas
                &&& p[j].self_ink == ns[j].self_ink
                &&& p[j].self_hostio_count == ns[j].self_hostio_count
                &&& p[j].call_count == ns[j].call_count
            },
        forall|j: int| 0 <= j < i ==> #[trigger] pass_from(ns, i)[j] == ns[j],
    decreases ns.len() - i,
{
    if i < ns.len() {
        lemma_pass_preserves(ns, i + 1);
    }
}

proof fn lemma_nodes_gas_take_le(ns: Seq<NodeView>, k: int)
    requires
        forall|j: int| 0 <= j < ns.len() ==> (#[trigger] ns[j]).self_gas >= 0,
        0 <= k <= ns.len(),
    ensures
        nodes_self_gas_sum(ns.take(k)) <= nodes_self_gas_sum(ns),
    decreases ns.len() - k,
{
    if k == ns.len() {
        assert(ns.take(k) =~= ns);
    } else {
        assert(ns.take(k + 1).drop_last() =~= ns.take(k));
        assert(ns.take(k + 1).last() == ns[k]);
        lemma_nodes_gas_take_le(ns, k + 1);
    }
}

proof fn lemma_nodes_ink0_take_le(ns: Seq<NodeView>, k: int)
    requires
        forall|j: int| 0 <= j < ns.len() ==> ink0((#[trigger] ns[j]).self_ink) >= 0,
        0 <= k <= ns.len(),
    ensures
        nodes_self_ink0_sum(ns.take(k)) <= nodes_self_ink0_sum(ns),
    decreases ns.len() - k,
{
    if k == ns.len() {
        assert(ns.take(k) =~= ns);
    } else {
        assert(ns.take(k + 1).drop_last() =~= ns.take(k));
        assert(ns.take(k + 1).last() == ns[k]);
        lemma_nodes_ink0_take_le(ns, k + 1);
    }
}

proof fn lemma_nodes_hostio_take_le(ns: Seq<NodeView>, k: int)
    requires
        forall|j: int| 0 <= j < ns.len() ==> (#[trigger] ns[j]).self_hostio_count >= 0,
        0 <= k <= ns.len(),
    ensures
        nodes_self_hostio_sum(ns.take(k)) <= nodes_self_hostio_sum(ns),
    decreases ns.len() - k,
{
    if k == ns.len() {
        assert(ns.take(k) =~= ns);
    } else {
        assert(ns.take(k + 1).drop_last() =~= ns.take(k));
        assert(ns.take(k + 1).last() == ns[k]);
        lemma_nodes_hostio_take_le(ns, k + 1);
    }
}

/// A measured (`Some`) ink sum never exceeds the `None`-as-zero bound.
proof fn lemma_ink_sum_le_ink0(ns: Seq<NodeView>)
    requires
        forall|j: int| 0 <= j < ns.len() ==> ink0((#[trigger] ns[j]).self_ink) >= 0,
    ensures
        nodes_self_ink_sum(ns) matches Some(v) ==> v <= nodes_self_ink0_sum(ns),
    decreases ns.len(),
{
    if ns.len() > 0 {
        lemma_ink_sum_le_ink0(ns.drop_last());
    }
}

// ---------------------------------------------------------------------------
// Stated law: for every balanced stream, the root's cumulative gas — and the
// profile's total — is the sum of every event's gas contribution.
// ---------------------------------------------------------------------------

/// For all well-formed balanced event streams, the profile's `total_gas` and
/// the root's `cumulative_gas` both equal the sum of every event's gas cost,
/// and likewise the HostIO total counts every boundary crossing. The Ink
/// total is the measured stream sum, or "not measured" for an empty stream;
/// whenever it is not measured, the root's directly-attributed Ink is not
/// measured either — never zero.
pub proof fn lemma_root_gas_is_stream_gas(evs: Seq<EventView>, tx: Seq<char>, tracer: Seq<char>)
    requires
        evs_wf(evs),
        stream_ok(evs),
    ensures
        spec_profile(evs, tx, tracer).total_gas == sum_gas(evs),
        spec_profile(evs, tx, tracer).nodes[0].cumulative_gas == sum_gas(evs),
        spec_profile(evs, tx, tracer).total_hostio_calls == count_hostio(evs),
        spec_profile(evs, tx, tracer).nodes[0].hostio_count == count_hostio(evs),
        spec_profile(evs, tx, tracer).total_ink == (if evs.len() == 0 {
            None
        } else {
            sum_ink(evs)
        }),
        spec_profile(evs, tx, tracer).total_ink is None ==> spec_profile(
            evs,
            tx,
            tracer,
        ).nodes[0].self_ink is None,
        model_wf(spec_profile(evs, tx, tracer)),
{
    lemma_fold_invariants(evs, tx);
    let st = build_fold(evs, tx);
    lemma_pass_preserves(st.nodes, 1);
    let m = spec_profile(evs, tx, tracer);
    assert(m.nodes == set_root(
        pass_from(st.nodes, 1),
        nodes_self_gas_sum(st.nodes),
        ink_total(evs, st.nodes),
        nodes_self_hostio_sum(st.nodes),
    ));
    assert(m.nodes[0].cumulative_gas == nodes_self_gas_sum(st.nodes));
    assert(nodes_wf(m.nodes)) by {
        assert(forall|j: int|
            0 <= j < m.nodes.len() && j >= 1 ==> (#[trigger] m.nodes[j]) == pass_from(
                st.nodes,
                1,
            )[j]);
    }
}

// ---------------------------------------------------------------------------
// The executable builder.
// ---------------------------------------------------------------------------

pub open spec fn stack_view(s: Seq<usize>) -> Seq<int> {
    s.map_values(|u: usize| u as int)
}

fn reenter_at(nodes: &mut Vec<ProfileNode>, idx: usize, ev: &TraceEvent)
    requires
        idx < old(nodes)@.len(),
        old(nodes).deep_view()[idx as int].call_count + 1 <= u64::MAX,
        old(nodes).deep_view()[idx as int].self_gas + ev.gas_cost <= u64::MAX,
        ink0(old(nodes).deep_view()[idx as int].self_ink) + ink0(ev@.ink_cost) <= u64::MAX,
    ensures
        final(nodes).deep_view() == old(nodes).deep_view().update(
            idx as int,
            reenter_node(old(nodes).deep_view()[idx as int], ev@),
        ),
{
    let cc = nodes[idx].call_count;
    nodes[idx].call_count = cc + 1;
    let g = nodes[idx].self_gas;
    nodes[idx].self_gas = g + ev.gas_cost;
    let new_ink: Option<u64> = match (nodes[idx].self_ink, ev.ink_cost) {
        (Some(a), Some(b)) => Some(a + b),
        _ => None,
    };
    nodes[idx].self_ink = new_ink;
    proof {
        assert(nodes.deep_view() =~~= old(nodes).deep_view().update(
            idx as int,
            reenter_node(old(nodes).deep_view()[idx as int], ev@),
        ));
    }
}

fn charge_at(nodes: &mut Vec<ProfileNode>, idx: usize, ev: &TraceEvent, hostio: bool)
    requires
        idx < old(nodes)@.len(),
        old(nodes).deep_view()[idx as int].self_gas + ev.gas_cost <= u64::MAX,
        ink0(old(nodes).deep_view()[idx as int].self_ink) + ink0(ev@.ink_cost) <= u64::MAX,
        hostio ==> old(nodes).deep_view()[idx as int].self_hostio_count + 1 <= u64::MAX,
    ensures
        final(nodes).deep_view() == old(nodes).deep_view().update(
            idx as int,
            charge_node(
                old(nodes).deep_view()[idx as int],
                ev@,
                if hostio {
                    1int
                } else {
                    0int
                },
            ),
        ),
{
    let g = nodes[idx].self_gas;
    nodes[idx].self_gas = g + ev.gas_cost;
    let new_ink: Option<u64> = match (nodes[idx].self_ink, ev.ink_cost) {
        (Some(a), Some(b)) => Some(a + b),
        _ => None,
    };
    nodes[idx].self_ink = new_ink;
    if hostio {
        let h = nodes[idx].self_hostio_count;
        nodes[idx].self_hostio_count = h + 1;
    }
    proof {
        assert(nodes.deep_view() =~~= old(nodes).deep_view().update(
            idx as int,
            charge_node(
                old(nodes).deep_view()[idx as int],
                ev@,
                if hostio {
                    1int
                } else {
                    0int
                },
            ),
        ));
    }
}

fn push_child(nodes: &mut Vec<ProfileNode>, parent: usize, ev: &TraceEvent)
    requires
        parent < old(nodes)@.len(),
    ensures
        final(nodes).deep_view() == old(nodes).deep_view().update(
            parent as int,
            add_child(old(nodes).deep_view()[parent as int], old(nodes)@.len() as int),
        ).push(fresh_node(ev@, parent as int)),
        final(nodes)@.len() == old(nodes)@.len() + 1,
{
    let idx = nodes.len();
    nodes[parent].children.push(idx);
    let n = ProfileNode {
        label: ev.label.clone(),
        parent: parent,
        children: Vec::new(),
        self_gas: ev.gas_cost,
        self_ink: ev.ink_cost,
        self_hostio_count: 0,
        cumulative_gas: 0,
        cumulative_ink: None,
        hostio_count: 0,
        call_count: 1,
    };
    nodes.push(n);
    proof {
        assert(nodes.deep_view() =~~= old(nodes).deep_view().update(
            parent as int,
            add_child(old(nodes).deep_view()[parent as int], old(nodes)@.len() as int),
        ).push(fresh_node(ev@, parent as int)));
    }
}

/// Reconstructs a call-tree profile from a normalized, time-ordered event
/// stream for one transaction.
pub struct ProfileBuilder {
    pub transaction_hash: String,
    pub tracer_name: String,
}

impl ProfileBuilder {
    pub fn new(transaction_hash: String, tracer_name: String) -> (r: ProfileBuilder)
        ensures
            r.transaction_hash == transaction_hash,
            r.tracer_name == tracer_name,
    {
        ProfileBuilder { transaction_hash, tracer_name }
    }

    /// Builds the profile.
    ///
    /// Returns `Ok` exactly on balanced streams, and then the profile is
    /// precisely the one the stream denotes ([`spec_profile`]); an
    /// unbalanced stream yields `UnbalancedTrace` and no partial profile.
    /// The two metric preconditions only keep the transaction's totals
    /// within the metric width.
    pub fn build(&self, events: &Vec<TraceEvent>) -> (r: Result<ProfileModel, TraceError>)
        requires
            sum_gas(events.deep_view()) <= u64::MAX,
            sum_ink0(events.deep_view()) <= u64::MAX,
            events@.len() < usize::MAX,
        ensures
            match r {
                Ok(m) => stream_ok(events.deep_view()) && m@ == spec_profile(
                    events.deep_view(),
                    self.transaction_hash@,
                    self.tracer_name@,
                ) && model_wf(m@),
                Err(e) => !stream_ok(events.deep_view()) && e == TraceError::UnbalancedTrace,
            },
    {
        let ghost evs = events.deep_view();
        let ghost tx = self.transaction_hash@;
        proof {
            assert(evs_wf(evs)) by {
                assert(forall|k: int|
                    0 <= k < evs.len() ==> #[trigger] evs[k] == events@[k].deep_view());
            }
        }
        let mut nodes: Vec<ProfileNode> = Vec::new();
        nodes.push(
            ProfileNode {
                label: self.transaction_hash.clone(),
                parent: 0,
                children: Vec::new(),
                self_gas: 0,
                self_ink: Some(0),
                self_hostio_count: 0,
                cumulative_gas: 0,
                cumulative_ink: None,
                hostio_count: 0,
                call_count: 1,
            },
        );
        let mut stack: Vec<usize> = Vec::new();
        stack.push(0);
        let mut open_hostio: u64 = 0;
        proof {
            assert(evs.take(0) =~= Seq::<EventView>::empty());
            assert(nodes.deep_view() =~~= build_fold(evs.take(0), tx).nodes);
            assert(stack_view(stack@) =~= build_fold(evs.take(0), tx).stack);
        }
        let mut i: usize = 0;
        while i < events.len()
            invariant
                i <= events.len(),
                evs == events.deep_view(),
                tx == self.transaction_hash@,
                evs_wf(evs),
                sum_gas(evs) <= u64::MAX,
                sum_ink0(evs) <= u64::MAX,
                evs.len() < usize::MAX,
                !build_fold(evs.take(i as int), tx).failed,
                nodes.deep_view() == build_fold(evs.take(i as int), tx).nodes,
                stack_view(stack@) == build_fold(evs.take(i as int), tx).stack,
                open_hostio as int == build_fold(evs.take(i as int), tx).open_hostio,
            decreases events.len() - i,
        {
            let ghost pre = evs.take(i as int);
            let ghost st = build_fold(pre, tx);
            let ghost post = evs.take(i as int + 1);
            proof {
                assert(evs_wf(pre)) by {
                    assert(forall|k: int| 0 <= k < pre.len() ==> pre[k] == evs[k]);
                }
                lemma_fold_invariants(pre, tx);
                assert(post.drop_last() =~= pre);
                assert(post.last() == evs[i as int]);
                assert(evs[i as int] == events@[i as int].deep_view());
                assert(evs_wf(post)) by {
                    assert(forall|k: int| 0 <= k < post.len() ==> post[k] == evs[k]);
                }
                assert(pre.len() == i as int);
                lemma_count_hostio_le_len(pre);
            }
            let ev = &events[i];
            let t: usize = stack[stack.len() - 1];
            proof {
                assert(stack_view(stack@)[stack@.len() - 1] == t as int);
                assert(t as int == st.stack.last());
                assert(t < nodes@.len());
                lemma_gas_elem_le(st.nodes, t as int);
                lemma_ink0_elem_le(st.nodes, t as int);
                lemma_hostio_elem_le(st.nodes, t as int);
                lemma_sum_gas_take_le(evs, i as int + 1);
                lemma_sum_ink0_take_le(evs, i as int + 1);
            }
            match ev.kind {
                EventKind::CallEnter => {
                    if open_hostio != 0 {
                        proof {
                            assert(!scan_fold(post).ok);
                            lemma_scan_not_ok_sticky(evs, i as int + 1);
                        }
                        return Err(TraceError::UnbalancedTrace);
                    }
                    let reuse_top = t != 0 && nodes[t].label == ev.label;
                    if reuse_top {
                        reenter_at(&mut nodes, t, ev);
                        stack.push(t);
                    } else {
                        let clen = nodes[t].children.len();
                        let mut reuse_child = false;
                        let mut c: usize = 0;
                        if clen > 0 {
                            c = nodes[t].children[clen - 1];
                            proof {
                                assert(st.nodes[t as int].children[clen - 1] == c as int);
                                assert(c < nodes@.len());
                            }
                            if nodes[c].label == ev.label {
                                reuse_child = true;
                            }
                        }
                        if reuse_child {
                            proof {
                                lemma_gas_elem_le(st.nodes, c as int);
                                lemma_ink0_elem_le(st.nodes, c as int);
                            }
                            reenter_at(&mut nodes, c, ev);
                            stack.push(c);
                        } else {
                            let idx = nodes.len();
                            push_child(&mut nodes, t, ev);
                            stack.push(idx);
                        }
                    }
                    proof {
                        assert(nodes.deep_view() == build_fold(post, tx).nodes);
                        assert(stack_view(stack@) =~= build_fold(post, tx).stack);
                    }
                },
                EventKind::CallExit => {
                    if open_hostio != 0 || stack.len() <= 1 {
                        proof {
                            assert(!scan_fold(post).ok);
                            lemma_scan_not_ok_sticky(evs, i as int + 1);
                        }
                        return Err(TraceError::UnbalancedTrace);
                    }
                    charge_at(&mut nodes, t, ev, false);
                    let _ = stack.pop();
                    proof {
                        assert(nodes.deep_view() == build_fold(post, tx).nodes);
                        assert(stack_view(stack@) =~= build_fold(post, tx).stack);
                    }
                },
                EventKind::HostIoEnter => {
                    charge_at(&mut nodes, t, ev, true);
                    open_hostio = open_hostio + 1;
                    proof {
                        assert(nodes.deep_view() == build_fold(post, tx).nodes);
                        assert(stack_view(stack@) =~= build_fold(post, tx).stack);
                    }
                },
                EventKind::HostIoExit => {
                    if open_hostio == 0 {
                        proof {
                            assert(!scan_fold(post).ok);
                            lemma_scan_not_ok_sticky(evs, i as int + 1);
                        }
                        return Err(TraceError::UnbalancedTrace);
                    }
                    charge_at(&mut nodes, t, ev, false);
                    open_hostio = open_hostio - 1;
                    proof {
                        assert(nodes.deep_view() == build_fold(post, tx).nodes);
                        assert(stack_view(stack@) =~= build_fold(post, tx).stack);
                    }
                },
            }
            i = i + 1;
        }
        proof {
            assert(evs.take(events@.len() as int) =~= evs);
            lemma_fold_invariants(evs, tx);
        }
        let ghost fst = build_fold(evs, tx);
        if stack.len() != 1 || open_hostio != 0 {
            return Err(TraceError::UnbalancedTrace);
        }
        assert(stream_ok(evs));
        // Summaries: the root covers the whole transaction, so its cumulative
        // metrics are the plain sums of everything directly attributed.
        let ghost fin = fst.nodes;
        proof {
            lemma_count_hostio_le_len(evs);
            assert(nodes_self_gas_sum(fin) == sum_gas(evs));
            assert(nodes_self_hostio_sum(fin) == count_hostio(evs));
        }
        let n = nodes.len();
        let mut total_gas: u64 = 0;
        let mut total_ink: Option<u64> = Some(0);
        let mut total_hostio: u64 = 0;
        proof {
            assert(fin.take(0) =~= Seq::<NodeView>::empty());
        }
        let mut k: usize = 0;
        while k < n
            invariant
                k <= n,
                n == nodes@.len(),
                fin.len() == n,
                nodes.deep_view() == fin,
                nodes_wf(fin),
                nodes_self_gas_sum(fin) <= u64::MAX,
                nodes_self_ink0_sum(fin) <= u64::MAX,
                nodes_self_hostio_sum(fin) <= u64::MAX,
                total_gas as int == nodes_self_gas_sum(fin.take(k as int)),
                opt_int(total_ink) == nodes_self_ink_sum(fin.take(k as int)),
                total_hostio as int == nodes_self_hostio_sum(fin.take(k as int)),
            decreases n - k,
        {
            proof {
                assert(fin.take(k as int + 1).drop_last() =~= fin.take(k as int));
                assert(fin.take(k as int + 1).last() == fin[k as int]);
                lemma_nodes_gas_take_le(fin, k as int + 1);
                lemma_nodes_ink0_take_le(fin, k as int + 1);
                lemma_nodes_hostio_take_le(fin, k as int + 1);
                lemma_gas_sum_nonneg(fin.take(k as int));
                lemma_ink_sum_le_ink0(fin.take(k as int));
                lemma_ink0_sum_nonneg(fin.take(k as int));
                lemma_hostio_sum_nonneg(fin.take(k as int));
                assert(forall|j: int|
                    0 <= j < fin.take(k as int).len() ==> ink0(
                        (#[trigger] fin.take(k as int)[j]).self_ink,
                    ) >= 0);
            }
            let sg = nodes[k].self_gas;
            total_gas = total_gas + sg;
            total_ink = match (total_ink, nodes[k].self_ink) {
                (Some(a), Some(b)) => Some(a + b),
                _ => None,
            };
            let sh = nodes[k].self_hostio_count;
            total_hostio = total_hostio + sh;
            k = k + 1;
        }
        proof {
            assert(fin.take(n as int) =~= fin);
        }
        // Bottom-up rollup of cumulative metrics for every non-root node.
        let mut j: usize = n;
        while j > 1
            invariant
                1 <= j <= n,
                n == nodes@.len(),
                fin.len() == n,
                nodes_wf(fin),
                nodes.deep_view() == pass_from(fin, j as int),
            decreases j,
        {
            let idx = j - 1;
            let ghost p = pass_from(fin, j as int);
            proof {
                lemma_pass_preserves(fin, j as int);
            }
            let mut acc_g: u64 = nodes[idx].self_gas;
            let mut acc_i: Option<u64> = nodes[idx].self_ink;
            let mut acc_h: u64 = nodes[idx].self_hostio_count;
            let clen = nodes[idx].children.len();
            let ghost cs = p[idx as int].children;
            proof {
                assert(cs == fin[idx as int].children);
                assert(cs.take(0) =~= Seq::<int>::empty());
            }
            let mut kk: usize = 0;
            while kk < clen
                invariant
                    kk <= clen,
                    n == nodes@.len(),
                    nodes_wf(fin),
                    1 <= j <= n,
                    fin.len() == n,
                    idx == j - 1,
                    nodes.deep_view() == pass_from(fin, j as int),
                    p == pass_from(fin, j as int),
                    cs == p[idx as int].children,
                    clen == cs.len(),
                    idx < n,
                    acc_g as int == kids_cum_gas(p, cs.take(kk as int), p[idx as int].self_gas),
                    opt_int(acc_i) == kids_cum_ink(p, cs.take(kk as int), p[idx as int].self_ink),
                    acc_h as int == kids_cum_hostio(
                        p,
                        cs.take(kk as int),
                        p[idx as int].self_hostio_count,
                    ),
                decreases clen - kk,
            {
                proof {
                    lemma_pass_preserves(fin, j as int);
                    assert(cs.take(kk as int + 1).drop_last() =~= cs.take(kk as int));
                    assert(cs.take(kk as int + 1).last() == cs[kk as int]);
                    assert(idx < fin.len() && (kk as int) < fin[idx as int].children.len());
                    assert((idx as int) < cs[kk as int] < n);
                }
                let c = nodes[idx].children[kk];
                proof {
                    assert(c as int == cs[kk as int]);
                }
                let v = nodes[c].cumulative_gas;
                acc_g = if acc_g <= u64::MAX - v {
                    acc_g + v
                } else {
                    u64::MAX
                };
                let iv = nodes[c].cumulative_ink;
                acc_i = match (acc_i, iv) {
                    (Some(a), Some(b)) => Some(
                        if a <= u64::MAX - b {
                            a + b
                        } else {
                            u64::MAX
                        },
                    ),
                    _ => None,
                };
                let hv = nodes[c].hostio_count;
                acc_h = if acc_h <= u64::MAX - hv {
                    acc_h + hv
                } else {
                    u64::MAX
                };
                kk = kk + 1;
            }
            proof {
                assert(cs.take(clen as int) =~= cs);
            }
            nodes[idx].cumulative_gas = acc_g;
            nodes[idx].cumulative_ink = acc_i;
            nodes[idx].hostio_count = acc_h;
            proof {
                assert(nodes.deep_view() =~~= pass_from(fin, idx as int));
            }
            j = idx;
        }
        // An empty stream never measured Ink, and an unmeasured total means
        // the root's directly-attributed Ink is unmeasured too.
        let ink_measured: Option<u64> = if events.len() == 0 {
            None
        } else {
            total_ink
        };
        nodes[0].cumulative_gas = total_gas;
        nodes[0].cumulative_ink = ink_measured;
        nodes[0].hostio_count = total_hostio;
        if ink_measured.is_none() {
            nodes[0].self_ink = None;
        }
        proof {
            assert(opt_int(ink_measured) == ink_total(evs, fin));
            assert(nodes.deep_view() =~~= spec_finalize(fin, ink_total(evs, fin)));
        }
        let m = ProfileModel {
            nodes,
            transaction_hash: self.transaction_hash.clone(),
            tracer_name: self.tracer_name.clone(),
            total_gas,
            total_ink: ink_measured,
            total_hostio_calls: total_hostio,
            hot_paths: Vec::new(),
        };
        proof {
            assert(m.hot_paths.deep_view() =~= Seq::<HotPathView>::empty());
            assert(m@ == spec_profile(evs, tx, self.tracer_name@));
            lemma_root_gas_is_stream_gas(evs, tx, self.tracer_name@);
        }
        Ok(m)
    }
}

} // verus!
