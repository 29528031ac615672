//! Structural comparison of two profiles under a threshold policy.
//!
//! Percent changes are expressed in hundredths of a percent
//! ("centi-percent"): a change from 100000 to 106000 is `600`. Threshold
//! classification compares exact rationals — `(t - b) / b > thr` is decided
//! as `(t - b) * 10000 > thr_centi * b` — so no rounding is involved; the
//! reported numeric change is the rounded-toward-zero centi-percent value.

use vstd::prelude::*;
use crate::builder::{ProfileModel, HotPath, HotPathView, model_wf, nodes_wf};
use crate::threshold::{ThresholdPolicy, MAX_THRESHOLD_CENTI};

verus! {

/// The metrics a comparison can flag.
#[derive(Clone, Copy, Debug, PartialEq, Eq, Structural)]
pub enum MetricKind {
    Gas,
    HostIoCalls,
    Ink,
    HotPaths,
}

/// The outcome of a comparison, or of one flagged regression.
#[derive(Clone, Copy, Debug, PartialEq, Eq, Structural)]
pub enum Verdict {
    Pass,
    Fail,
}

/// A whole-profile delta for one metric. `divergent` marks an "infinite
/// increase": the baseline was zero and the target is not, so no finite
/// percent change exists (the numeric field is then zero by convention).
#[derive(Clone, Copy, Debug, PartialEq, Eq)]
pub struct MetricDelta {
    pub metric: MetricKind,
    pub baseline_value: u64,
    pub target_value: u64,
    pub percent_change_centi: i128,
    pub divergent: bool,
}

/// How a hot path moved between the two profiles' rankings.
#[derive(Clone, Copy, Debug, PartialEq, Eq, Structural)]
pub enum HotPathDeltaKind {
    NewHotPath,
    ShiftedHotPath,
}

/// One hot-path difference: a path in the target's ranking that is new, or
/// whose rank or cost moved. For a new path the baseline fields are zero.
#[derive(Debug)]
pub struct HotPathDelta {
    pub node_path: Vec<String>,
    pub kind: HotPathDeltaKind,
    pub baseline_rank: usize,
    pub target_rank: usize,
    pub baseline_value: u64,
    pub target_value: u64,
}

/// The mathematical value of a [`HotPathDelta`].
#[verifier::ext_equal]
pub ghost struct HotPathDeltaView {
    pub node_path: Seq<Seq<char>>,
    pub kind: HotPathDeltaKind,
    pub baseline_rank: int,
    pub target_rank: int,
    pub baseline_value: int,
    pub target_value: int,
}

impl View for HotPathDelta {
    type V = HotPathDeltaView;

    open spec fn view(&self) -> HotPathDeltaView {
        HotPathDeltaView {
            node_path: self.node_path.deep_view(),
            kind: self.kind,
            baseline_rank: self.baseline_rank as int,
            target_rank: self.target_rank as int,
            baseline_value: self.baseline_value as int,
            target_value: self.target_value as int,
        }
    }
}

impl DeepView for HotPathDelta {
    type V = HotPathDeltaView;

    open spec fn deep_view(&self) -> HotPathDeltaView {
        self.view()
    }
}

/// One flagged regression. For the Gas and HostIOCalls metrics the observed
/// change is the whole-profile centi-percent change (with `divergent` for an
/// infinite increase); for the HotPaths metric the triggering paths stand in
/// `hot_path_deltas`, so the numeric field is zero.
#[derive(Clone, Copy, Debug, PartialEq, Eq)]
pub struct Regression {
    pub metric: MetricKind,
    pub observed_percent_change_centi: i128,
    pub divergent: bool,
    pub threshold_centi: u64,
    pub verdict: Verdict,
}

/// The mathematical value of a [`Regression`].
#[verifier::ext_equal]
pub ghost struct RegressionView {
    pub metric: MetricKind,
    pub observed_percent_change_centi: int,
    pub divergent: bool,
    pub threshold_centi: int,
    pub verdict: Verdict,
}

impl View for Regression {
    type V = RegressionView;

    open spec fn view(&self) -> RegressionView {
        RegressionView {
            metric: self.metric,
            observed_percent_change_centi: self.observed_percent_change_centi as int,
            divergent: self.divergent,
            threshold_centi: self.threshold_centi as int,
            verdict: self.verdict,
        }
    }
}

impl DeepView for Regression {
    type V = RegressionView;

    open spec fn deep_view(&self) -> RegressionView {
        self.view()
    }
}

/// The outcome of diffing two profiles: summary deltas, hot-path movement,
/// the flagged regressions, and the overall verdict (`Fail` exactly when
/// some regression fired).
#[derive(Debug)]
pub struct DiffResult {
    pub gas_delta: MetricDelta,
    pub hostio_delta: MetricDelta,
    pub ink_delta: Option<MetricDelta>,
    pub hot_path_deltas: Vec<HotPathDelta>,
    pub regressions: Vec<Regression>,
    pub overall_verdict: Verdict,
}

// ---------------------------------------------------------------------------
// Specification of the comparison.
// ---------------------------------------------------------------------------

/// Centi-percent change from `b` to `t`, rounded toward zero; zero when the
/// baseline is zero (the divergent flag carries that case).
pub open spec fn pc_centi(b: int, t: int) -> int {
    if b == 0 {
        0
    } else if t >= b {
        (t - b) * 10000 / b
    } else {
        -((b - t) * 10000 / b)
    }
}

/// Whether the change from `b` to `t` lies beyond the threshold `thr`
/// (centi-percent), compared as exact rationals; a divergent change (zero
/// baseline, non-zero target) always does.
pub open spec fn exceeds(b: int, t: int, thr: int) -> bool {
    if b == 0 {
        t > 0
    } else if t > b {
        (t - b) * 10000 > thr * b
    } else {
        false
    }
}

pub open spec fn spec_delta(metric: MetricKind, b: u64, t: u64) -> MetricDelta {
    MetricDelta {
        metric: metric,
        baseline_value: b,
        target_value: t,
        percent_change_centi: pc_centi(b as int, t as int) as i128,
        divergent: b == 0 && t > 0,
    }
}

/// The Ink delta exists only when both profiles measured Ink; "not
/// measured" never reads as zero.
pub open spec fn spec_ink_delta(b: Option<u64>, t: Option<u64>) -> Option<MetricDelta> {
    match (b, t) {
        (Some(x), Some(y)) => Some(spec_delta(MetricKind::Ink, x, y)),
        _ => None,
    }
}

pub open spec fn gas_fires(b: u64, t: u64, pol: ThresholdPolicy) -> bool {
    match pol.gas {
        Some(g) => exceeds(b as int, t as int, g as int),
        None => false,
    }
}

pub open spec fn hostio_fires(b: u64, t: u64, pol: ThresholdPolicy) -> bool {
    match pol.hostio {
        Some(g) => exceeds(b as int, t as int, g as int),
        None => false,
    }
}

/// First position in `l` holding the given path, scanning from `k`.
pub open spec fn find_from(l: Seq<HotPathView>, p: Seq<Seq<char>>, k: int) -> Option<int>
    decreases l.len() - k,
    when 0 <= k
{
    if k >= l.len() {
        None
    } else if l[k].node_path == p {
        Some(k)
    } else {
        find_from(l, p, k + 1)
    }
}

pub open spec fn hp_cost_exceeds(bv: int, tv: int, pol: ThresholdPolicy) -> bool {
    match pol.hot_paths {
        Some(h) => exceeds(bv, tv, h as int),
        None => false,
    }
}

/// The delta entries one target hot path contributes: a new path is always
/// reported; a path present in both rankings is reported when its rank
/// changed or its cost moved beyond the hot-path threshold.
pub open spec fn hp_delta_for(
    bl: Seq<HotPathView>,
    e: HotPathView,
    pol: ThresholdPolicy,
) -> Seq<HotPathDeltaView> {
    match find_from(bl, e.node_path, 0) {
        None => seq![
            HotPathDeltaView {
                node_path: e.node_path,
                kind: HotPathDeltaKind::NewHotPath,
                baseline_rank: 0,
                target_rank: e.rank,
                baseline_value: 0,
                target_value: e.metric_value,
            },
        ],
        Some(j) => {
            if bl[j].rank != e.rank || hp_cost_exceeds(bl[j].metric_value, e.metric_value, pol) {
                seq![
                    HotPathDeltaView {
                        node_path: e.node_path,
                        kind: HotPathDeltaKind::ShiftedHotPath,
                        baseline_rank: bl[j].rank,
                        target_rank: e.rank,
                        baseline_value: bl[j].metric_value,
                        target_value: e.metric_value,
                    },
                ]
            } else {
                Seq::empty()
            }
        },
    }
}

/// The hot-path deltas of the first `k` target entries, in target order.
pub open spec fn hp_deltas_upto(
    bl: Seq<HotPathView>,
    tl: Seq<HotPathView>,
    pol: ThresholdPolicy,
    k: int,
) -> Seq<HotPathDeltaView>
    decreases k,
{
    if k <= 0 {
        Seq::empty()
    } else {
        hp_deltas_upto(bl, tl, pol, k - 1) + hp_delta_for(bl, tl[k - 1], pol)
    }
}

/// Whether the hot-path metric fires: its threshold is set and some target
/// path is new, or moved in cost beyond the threshold.
pub open spec fn hp_fires(
    bl: Seq<HotPathView>,
    tl: Seq<HotPathView>,
    pol: ThresholdPolicy,
) -> bool {
    pol.hot_paths is Some && exists|k: int|
        0 <= k < tl.len() && match find_from(bl, (#[trigger] tl[k]).node_path, 0) {
            None => true,
            Some(j) => hp_cost_exceeds(bl[j].metric_value, tl[k].metric_value, pol),
        }
}

pub open spec fn regression_view(
    metric: MetricKind,
    pc: int,
    divergent: bool,
    thr: int,
) -> RegressionView {
    RegressionView {
        metric: metric,
        observed_percent_change_centi: pc,
        divergent: divergent,
        threshold_centi: thr,
        verdict: Verdict::Fail,
    }
}

pub open spec fn opt_thr(o: Option<u64>) -> int {
    match o {
        Some(v) => v as int,
        None => 0,
    }
}

/// The flagged regressions, in a fixed order: Gas, then HostIOCalls, then
/// HotPaths; exactly the metrics that fire appear.
pub open spec fn spec_regressions(
    bg: u64,
    tg: u64,
    bh: u64,
    th: u64,
    bl: Seq<HotPathView>,
    tl: Seq<HotPathView>,
    pol: ThresholdPolicy,
) -> Seq<RegressionView> {
    (if gas_fires(bg, tg, pol) {
        seq![
            regression_view(
                MetricKind::Gas,
                pc_centi(bg as int, tg as int),
                bg == 0 && tg > 0,
                opt_thr(pol.gas),
            ),
        ]
    } else {
        Seq::empty()
    }) + (if hostio_fires(bh, th, pol) {
        seq![
            regression_view(
                MetricKind::HostIoCalls,
                pc_centi(bh as int, th as int),
                bh == 0 && th > 0,
                opt_thr(pol.hostio),
            ),
        ]
    } else {
        Seq::empty()
    }) + (if hp_fires(bl, tl, pol) {
        seq![regression_view(MetricKind::HotPaths, 0, false, opt_thr(pol.hot_paths))]
    } else {
        Seq::empty()
    })
}

pub open spec fn spec_overall(
    bg: u64,
    tg: u64,
    bh: u64,
    th: u64,
    bl: Seq<HotPathView>,
    tl: Seq<HotPathView>,
    pol: ThresholdPolicy,
) -> Verdict {
    if gas_fires(bg, tg, pol) || hostio_fires(bh, th, pol) || hp_fires(bl, tl, pol) {
        Verdict::Fail
    } else {
        Verdict::Pass
    }
}

pub open spec fn policy_in_range(pol: ThresholdPolicy) -> bool {
    &&& crate::threshold::value_in_range(pol.gas)
    &&& crate::threshold::value_in_range(pol.hostio)
    &&& crate::threshold::value_in_range(pol.hot_paths)
}

// ---------------------------------------------------------------------------
// The executable comparison.
// ---------------------------------------------------------------------------

fn paths_equal(a: &Vec<String>, b: &Vec<String>) -> (r: bool)
    ensures
        r == (a.deep_view() == b.deep_view()),
{
    proof {
        assert(a.deep_view().len() == a@.len());
        assert(b.deep_view().len() == b@.len());
    }
    if a.len() != b.len() {
        proof {
            assert(a.deep_view().len() != b.deep_view().len());
        }
        return false;
    }
    let mut i: usize = 0;
    while i < a.len()
        invariant
            i <= a.len(),
            a@.len() == b@.len(),
            a.deep_view().len() == a@.len(),
            b.deep_view().len() == b@.len(),
            forall|j: int| 0 <= j < i ==> a.deep_view()[j] == b.deep_view()[j],
        decreases a.len() - i,
    {
        proof {
            assert(a.deep_view()[i as int] == a@[i as int]@);
            assert(b.deep_view()[i as int] == b@[i as int]@);
        }
        if !(a[i] == b[i]) {
            return false;
        }
        i = i + 1;
    }
    proof {
        assert(a.deep_view() =~= b.deep_view());
    }
    true
}

fn find_hot_path(l: &Vec<HotPath>, p: &Vec<String>) -> (r: Option<usize>)
    ensures
        (match r {
            Some(j) => Some(j as int),
            None => None,
        }) == find_from(l.deep_view(), p.deep_view(), 0),
        r matches Some(j) ==> j < l@.len(),
{
    let ghost ldv = l.deep_view();
    proof {
        assert(ldv.len() == l@.len());
    }
    let mut k: usize = 0;
    while k < l.len()
        invariant
            k <= l.len(),
            ldv == l.deep_view(),
            ldv.len() == l@.len(),
            find_from(ldv, p.deep_view(), 0) == find_from(ldv, p.deep_view(), k as int),
        decreases l.len() - k,
    {
        proof {
            assert(ldv[k as int] == l@[k as int]@);
        }
        if paths_equal(&l[k].node_path, p) {
            return Some(k);
        }
        k = k + 1;
    }
    None
}

fn compute_delta(metric: MetricKind, b: u64, t: u64) -> (r: MetricDelta)
    ensures
        r == spec_delta(metric, b, t),
{
    let pc: i128 = if b == 0 {
        0
    } else if t >= b {
        let mag: u128 = ((t - b) as u128) * 10000 / (b as u128);
        proof {
            assert(mag <= ((u64::MAX as u128) * 10000) / 1);
        }
        mag as i128
    } else {
        let mag: u128 = ((b - t) as u128) * 10000 / (b as u128);
        proof {
            assert(mag <= ((u64::MAX as u128) * 10000) / 1);
        }
        -(mag as i128)
    };
    MetricDelta {
        metric,
        baseline_value: b,
        target_value: t,
        percent_change_centi: pc,
        divergent: b == 0 && t > 0,
    }
}

fn check_exceeds(b: u64, t: u64, thr: u64) -> (r: bool)
    requires
        thr <= MAX_THRESHOLD_CENTI,
    ensures
        r == exceeds(b as int, t as int, thr as int),
{
    if b == 0 {
        t > 0
    } else if t > b {
        proof {
            assert((thr as int) * (b as int) <= 10000000 * (u64::MAX as int)) by (nonlinear_arith)
                requires
                    thr <= 10000000,
                    b <= u64::MAX,
            ;
        }
        ((t - b) as u128) * 10000 > (thr as u128) * (b as u128)
    } else {
        false
    }
}

fn clone_path(p: &Vec<String>) -> (r: Vec<String>)
    ensures
        r.deep_view() == p.deep_view(),
{
    let mut r: Vec<String> = Vec::new();
    let mut i: usize = 0;
    proof {
        assert(p.deep_view().len() == p@.len());
    }
    while i < p.len()
        invariant
            i <= p.len(),
            p.deep_view().len() == p@.len(),
            r.deep_view().len() == i,
            r@.len() == i,
            forall|j: int| 0 <= j < i ==> r.deep_view()[j] == p.deep_view()[j],
        decreases p.len() - i,
    {
        r.push(p[i].clone());
        proof {
            assert(r.deep_view().len() == r@.len());
            assert(r.deep_view()[i as int] == r@[i as int]@);
            assert(p.deep_view()[i as int] == p@[i as int]@);
        }
        i = i + 1;
    }
    proof {
        assert(r.deep_view() =~= p.deep_view());
    }
    r
}

/// Compares two profiles under the resolved policy.
///
/// The result is pinned exactly: each summary delta, the hot-path deltas in
/// target order, the flagged regressions (Gas, HostIOCalls, HotPaths, in
/// that order, exactly the ones that fire), and the overall verdict, which
/// is `Fail` exactly when some regression fired. Inputs are never mutated;
/// an unset threshold never produces a regression; a divergent baseline
/// (zero to non-zero) is recorded in the result, not raised.
pub fn diff(baseline: &ProfileModel, target: &ProfileModel, policy: &ThresholdPolicy) -> (r:
    DiffResult)
    requires
        policy_in_range(*policy),
    ensures
        r.gas_delta == spec_delta(MetricKind::Gas, baseline.total_gas, target.total_gas),
        r.hostio_delta == spec_delta(
            MetricKind::HostIoCalls,
            baseline.total_hostio_calls,
            target.total_hostio_calls,
        ),
        r.ink_delta == spec_ink_delta(baseline.total_ink, target.total_ink),
        r.hot_path_deltas.deep_view() == hp_deltas_upto(
            baseline.hot_paths.deep_view(),
            target.hot_paths.deep_view(),
            *policy,
            target.hot_paths.deep_view().len() as int,
        ),
        r.regressions.deep_view() == spec_regressions(
            baseline.total_gas,
            target.total_gas,
            baseline.total_hostio_calls,
            target.total_hostio_calls,
            baseline.hot_paths.deep_view(),
            target.hot_paths.deep_view(),
            *policy,
        ),
        r.overall_verdict == spec_overall(
            baseline.total_gas,
            target.total_gas,
            baseline.total_hostio_calls,
            target.total_hostio_calls,
            baseline.hot_paths.deep_view(),
            target.hot_paths.deep_view(),
            *policy,
        ),
{
    let ghost bl = baseline.hot_paths.deep_view();
    let ghost tl = target.hot_paths.deep_view();
    let ghost pol = *policy;
    let gas_delta = compute_delta(MetricKind::Gas, baseline.total_gas, target.total_gas);
    let hostio_delta = compute_delta(
        MetricKind::HostIoCalls,
        baseline.total_hostio_calls,
        target.total_hostio_calls,
    );
    let ink_delta: Option<MetricDelta> = match (baseline.total_ink, target.total_ink) {
        (Some(x), Some(y)) => Some(compute_delta(MetricKind::Ink, x, y)),
        _ => None,
    };
    let mut hp_deltas: Vec<HotPathDelta> = Vec::new();
    let mut hp_trigger = false;
    proof {
        assert(tl.len() == target.hot_paths@.len());
        assert(hp_deltas.deep_view() =~= hp_deltas_upto(bl, tl, pol, 0));
    }
    let mut k: usize = 0;
    while k < target.hot_paths.len()
        invariant
            k <= target.hot_paths@.len(),
            bl == baseline.hot_paths.deep_view(),
            tl == target.hot_paths.deep_view(),
            pol == *policy,
            policy_in_range(pol),
            tl.len() == target.hot_paths@.len(),
            hp_deltas.deep_view() == hp_deltas_upto(bl, tl, pol, k as int),
            hp_trigger ==> exists|j: int|
                0 <= j < k && match find_from(bl, (#[trigger] tl[j]).node_path, 0) {
                    None => true,
                    Some(i) => hp_cost_exceeds(bl[i].metric_value, tl[j].metric_value, pol),
                },
            !hp_trigger ==> forall|j: int|
                0 <= j < k ==> !(match find_from(bl, (#[trigger] tl[j]).node_path, 0) {
                    None => true,
                    Some(i) => hp_cost_exceeds(bl[i].metric_value, tl[j].metric_value, pol),
                }),
        decreases target.hot_paths@.len() - k,
    {
        proof {
            assert(tl[k as int] == target.hot_paths@[k as int]@);
        }
        let e = &target.hot_paths[k];
        let found = find_hot_path(&baseline.hot_paths, &e.node_path);
        match found {
            None => {
                let d = HotPathDelta {
                    node_path: clone_path(&e.node_path),
                    kind: HotPathDeltaKind::NewHotPath,
                    baseline_rank: 0,
                    target_rank: e.rank,
                    baseline_value: 0,
                    target_value: e.metric_value,
                };
                hp_deltas.push(d);
                hp_trigger = true;
                proof {
                    assert(hp_deltas.deep_view().last() =~= hp_delta_for(bl, tl[k as int], pol)[0]);
                    assert(hp_deltas.deep_view() =~~= hp_deltas_upto(bl, tl, pol, k as int + 1));
                }
            },
            Some(j) => {
                proof {
                    assert(bl[j as int] == baseline.hot_paths@[j as int]@);
                }
                let bj = &baseline.hot_paths[j];
                let cost_ex = match policy.hot_paths {
                    Some(h) => check_exceeds(bj.metric_value, e.metric_value, h),
                    None => false,
                };
                if cost_ex {
                    hp_trigger = true;
                }
                if bj.rank != e.rank || cost_ex {
                    let d = HotPathDelta {
                        node_path: clone_path(&e.node_path),
                        kind: HotPathDeltaKind::ShiftedHotPath,
                        baseline_rank: bj.rank,
                        target_rank: e.rank,
                        baseline_value: bj.metric_value,
                        target_value: e.metric_value,
                    };
                    hp_deltas.push(d);
                    proof {
                        assert(hp_deltas.deep_view().last() =~= hp_delta_for(
                            bl,
                            tl[k as int],
                            pol,
                        )[0]);
                        assert(hp_deltas.deep_view() =~~= hp_deltas_upto(bl, tl, pol, k as int + 1));
                    }
                } else {
                    proof {
                        assert(hp_delta_for(bl, tl[k as int], pol) =~= Seq::<
                            HotPathDeltaView,
                        >::empty());
                        assert(hp_deltas.deep_view() =~~= hp_deltas_upto(bl, tl, pol, k as int + 1));
                    }
                }
            },
        }
        k = k + 1;
    }
    proof {
        assert(tl.len() as int == target.hot_paths@.len() as int);
    }
    // Regressions, in fixed metric order.
    let mut regressions: Vec<Regression> = Vec::new();
    let gas_f = match policy.gas {
        Some(g) => check_exceeds(baseline.total_gas, target.total_gas, g),
        None => false,
    };
    if gas_f {
        let g = match policy.gas {
            Some(g) => g,
            None => 0,
        };
        regressions.push(
            Regression {
                metric: MetricKind::Gas,
                observed_percent_change_centi: gas_delta.percent_change_centi,
                divergent: gas_delta.divergent,
                threshold_centi: g,
                verdict: Verdict::Fail,
            },
        );
    }
    let ghost stage1 = regressions.deep_view();
    proof {
        assert(stage1 =~~= (if gas_fires(baseline.total_gas, target.total_gas, pol) {
            seq![
                regression_view(
                    MetricKind::Gas,
                    pc_centi(baseline.total_gas as int, target.total_gas as int),
                    baseline.total_gas == 0 && target.total_gas > 0,
                    opt_thr(pol.gas),
                ),
            ]
        } else {
            Seq::<RegressionView>::empty()
        }));
    }
    let hostio_f = match policy.hostio {
        Some(g) => check_exceeds(baseline.total_hostio_calls, target.total_hostio_calls, g),
        None => false,
    };
    if hostio_f {
        let g = match policy.hostio {
            Some(g) => g,
            None => 0,
        };
        regressions.push(
            Regression {
                metric: MetricKind::HostIoCalls,
                observed_percent_change_centi: hostio_delta.percent_change_centi,
                divergent: hostio_delta.divergent,
                threshold_centi: g,
                verdict: Verdict::Fail,
            },
        );
    }
    let ghost stage2 = regressions.deep_view();
    proof {
        assert(stage2 =~~= stage1 + (if hostio_fires(
            baseline.total_hostio_calls,
            target.total_hostio_calls,
            pol,
        ) {
            seq![
                regression_view(
                    MetricKind::HostIoCalls,
                    pc_centi(
                        baseline.total_hostio_calls as int,
                        target.total_hostio_calls as int,
                    ),
                    baseline.total_hostio_calls == 0 && target.total_hostio_calls > 0,
                    opt_thr(pol.hostio),
                ),
            ]
        } else {
            Seq::<RegressionView>::empty()
        }));
    }
    let hp_f = policy.hot_paths.is_some() && hp_trigger;
    if hp_f {
        let g = match policy.hot_paths {
            Some(g) => g,
            None => 0,
        };
        regressions.push(
            Regression {
                metric: MetricKind::HotPaths,
                observed_percent_change_centi: 0,
                divergent: false,
                threshold_centi: g,
                verdict: Verdict::Fail,
            },
        );
    }
    proof {
        assert(hp_f == hp_fires(bl, tl, pol));
        assert(regressions.deep_view() =~~= stage2 + (if hp_fires(bl, tl, pol) {
            seq![regression_view(MetricKind::HotPaths, 0, false, opt_thr(pol.hot_paths))]
        } else {
            Seq::<RegressionView>::empty()
        }));
        assert(regressions.deep_view() =~~= spec_regressions(
            baseline.total_gas,
            target.total_gas,
            baseline.total_hostio_calls,
            target.total_hostio_calls,
            bl,
            tl,
            pol,
        ));
    }
    let overall_verdict = if gas_f || hostio_f || hp_f {
        Verdict::Fail
    } else {
        Verdict::Pass
    };
    DiffResult {
        gas_delta,
        hostio_delta,
        ink_delta,
        hot_path_deltas: hp_deltas,
        regressions,
        overall_verdict,
    }
}

// ---------------------------------------------------------------------------
// Stated law: diffing a profile against itself passes.
// ---------------------------------------------------------------------------

/// A well-formed hot-path ranking: ranks are the 1-based positions and no
/// path occurs twice (true of every ranking the extractor produces).
pub open spec fn hot_paths_wf(l: Seq<HotPathView>) -> bool {
    &&& forall|k: int| 0 <= k < l.len() ==> (#[trigger] l[k]).rank == k + 1
    &&& forall|k1: int, k2: int|
        0 <= k1 < k2 < l.len() ==> (#[trigger] l[k1]).node_path != (#[trigger] l[k2]).node_path
}

proof fn lemma_find_self(l: Seq<HotPathView>, k: int, j: int)
    requires
        hot_paths_wf(l),
        0 <= j <= k < l.len(),
    ensures
        find_from(l, l[k].node_path, j) == Some(k),
    decreases k - j,
{
    if j < k {
        lemma_find_self(l, k, j + 1);
    }
}

proof fn lemma_self_deltas_empty(l: Seq<HotPathView>, pol: ThresholdPolicy, k: int)
    requires
        hot_paths_wf(l),
        0 <= k <= l.len(),
    ensures
        hp_deltas_upto(l, l, pol, k) == Seq::<HotPathDeltaView>::empty(),
    decreases k,
{
    if k > 0 {
        lemma_self_deltas_empty(l, pol, k - 1);
        lemma_find_self(l, k - 1, 0);
        assert(hp_delta_for(l, l[k - 1], pol) =~= Seq::<HotPathDeltaView>::empty());
        assert(hp_deltas_upto(l, l, pol, k) =~= hp_deltas_upto(l, l, pol, k - 1) + hp_delta_for(
            l,
            l[k - 1],
            pol,
        ));
    } else {
        assert(hp_deltas_upto(l, l, pol, 0) =~= Seq::<HotPathDeltaView>::empty());
    }
}

/// Idempotence: diffing a profile against itself yields a `Pass` verdict,
/// no regressions, no hot-path deltas, and every percent change zero and
/// non-divergent — under any threshold policy.
pub proof fn lemma_self_diff_passes(
    g: u64,
    h: u64,
    ink: Option<u64>,
    l: Seq<HotPathView>,
    pol: ThresholdPolicy,
)
    requires
        hot_paths_wf(l),
    ensures
        spec_delta(MetricKind::Gas, g, g).percent_change_centi == 0,
        !spec_delta(MetricKind::Gas, g, g).divergent,
        spec_delta(MetricKind::HostIoCalls, h, h).percent_change_centi == 0,
        spec_ink_delta(ink, ink) matches Some(d) ==> d.percent_change_centi == 0,
        spec_regressions(g, g, h, h, l, l, pol).len() == 0,
        spec_overall(g, g, h, h, l, l, pol) == Verdict::Pass,
        hp_deltas_upto(l, l, pol, l.len() as int) == Seq::<HotPathDeltaView>::empty(),
{
    lemma_self_deltas_empty(l, pol, l.len() as int);
    assert(!gas_fires(g, g, pol));
    assert(!hostio_fires(h, h, pol));
    assert(!hp_fires(l, l, pol)) by {
        assert forall|k: int| 0 <= k < l.len() implies !(match find_from(
            l,
            (#[trigger] l[k]).node_path,
            0,
        ) {
            None => true,
            Some(j) => hp_cost_exceeds(l[j].metric_value, l[k].metric_value, pol),
        }) by {
            lemma_find_self(l, k, 0);
        }
    }
    assert(spec_regressions(g, g, h, h, l, l, pol) =~= Seq::<RegressionView>::empty());
}

// ---------------------------------------------------------------------------
// Validity of a whole profile.
// ---------------------------------------------------------------------------

/// Structural validity of a profile as a whole: a well-formed arena whose
/// summary metrics agree with the root's cumulative metrics, and a
/// well-formed hot-path ranking. Every profile the builder produces (with a
/// ranking attached by the extractor) satisfies it; a profile read back
/// from a persisted document should be checked with it before ranking or
/// comparing, since a document can carry any field values.
pub fn validate_model(m: &ProfileModel) -> (r: bool)
    ensures
        r == (model_wf(m@) && hot_paths_wf(m.hot_paths.deep_view())),
{
    let ghost nv = m.nodes.deep_view();
    proof {
        assert(nv.len() == m.nodes@.len());
        assert(m@.nodes == nv);
    }
    if m.nodes.len() == 0 {
        return false;
    }
    proof {
        assert(nv[0] == m.nodes@[0]@);
    }
    if m.nodes[0].parent != 0 {
        proof {
            assert(!nodes_wf(nv));
        }
        return false;
    }
    let n = m.nodes.len();
    let mut j: usize = 0;
    while j < n
        invariant
            j <= n,
            n == m.nodes@.len(),
            nv == m.nodes.deep_view(),
            nv.len() == n,
            forall|x: int| 1 <= x < j ==> 0 <= (#[trigger] nv[x]).parent < x,
            forall|x: int, k: int|
                0 <= x < j && 0 <= k < nv[x].children.len() ==> x < #[trigger] nv[x].children[k]
                    < nv.len(),
            forall|x: int| 0 <= x < j ==> (#[trigger] nv[x]).call_count >= 1,
        decreases n - j,
    {
        proof {
            assert(nv[j as int] == m.nodes@[j as int]@);
        }
        let node = &m.nodes[j];
        if j >= 1 && node.parent >= j {
            proof {
                assert(!(0 <= nv[j as int].parent < j as int));
                assert(!nodes_wf(nv));
            }
            return false;
        }
        if node.call_count == 0 {
            proof {
                assert(!nodes_wf(nv));
            }
            return false;
        }
        let cl = node.children.len();
        let ghost cs = nv[j as int].children;
        proof {
            assert(cs == node.children@.map_values(|u: usize| u as int));
        }
        let mut k: usize = 0;
        while k < cl
            invariant
                k <= cl,
                j < n,
                n == m.nodes@.len(),
                nv == m.nodes.deep_view(),
                nv.len() == n,
                node == &m.nodes@[j as int],
                nv[j as int] == m.nodes@[j as int]@,
                cs == nv[j as int].children,
                cs == node.children@.map_values(|u: usize| u as int),
                cl == node.children@.len(),
                forall|y: int| 0 <= y < k ==> (j as int) < #[trigger] cs[y] < n,
            decreases cl - k,
        {
            let c = node.children[k];
            proof {
                assert(cs[k as int] == c as int);
            }
            if c <= j || c >= n {
                proof {
                    assert(!((j as int) < cs[k as int] < nv.len()));
                    assert(!nodes_wf(nv));
                }
                return false;
            }
            k = k + 1;
        }
        j = j + 1;
    }
    proof {
        assert(nodes_wf(nv)) by {
            assert(forall|x: int| 0 <= x < nv.len() ==> #[trigger] nv[x] == m.nodes@[x]@);
        }
    }
    if m.total_gas != m.nodes[0].cumulative_gas {
        return false;
    }
    let ink_match = match (m.total_ink, m.nodes[0].cumulative_ink) {
        (None, None) => true,
        (Some(a), Some(b)) => a == b,
        _ => false,
    };
    if !ink_match {
        return false;
    }
    if m.total_hostio_calls != m.nodes[0].hostio_count {
        return false;
    }
    let ghost hv = m.hot_paths.deep_view();
    proof {
        assert(hv.len() == m.hot_paths@.len());
    }
    let hn = m.hot_paths.len();
    let mut k: usize = 0;
    while k < hn
        invariant
            k <= hn,
            hn == m.hot_paths@.len(),
            hv == m.hot_paths.deep_view(),
            hv.len() == hn,
            model_wf(m@),
            forall|x: int| 0 <= x < k ==> (#[trigger] hv[x]).rank == x + 1,
            forall|x1: int, x2: int|
                0 <= x1 < x2 < k ==> (#[trigger] hv[x1]).node_path != (#[trigger] hv[x2]).node_path,
        decreases hn - k,
    {
        proof {
            assert(hv[k as int] == m.hot_paths@[k as int]@);
        }
        let hp = &m.hot_paths[k];
        if hp.rank != k + 1 {
            proof {
                assert(hv[k as int].rank != k as int + 1);
                assert(!hot_paths_wf(hv));
            }
            return false;
        }
        let mut k2: usize = 0;
        while k2 < k
            invariant
                k2 <= k,
                k < hn,
                hn == m.hot_paths@.len(),
                hv == m.hot_paths.deep_view(),
                hv.len() == hn,
                model_wf(m@),
                hp == &m.hot_paths@[k as int],
                hv[k as int] == m.hot_paths@[k as int]@,
                forall|x: int| 0 <= x < k2 ==> (#[trigger] hv[x]).node_path != hv[k as int].node_path,
            decreases k - k2,
        {
            proof {
                assert(hv[k2 as int] == m.hot_paths@[k2 as int]@);
            }
            if paths_equal(&m.hot_paths[k2].node_path, &hp.node_path) {
                proof {
                    assert(hv[k2 as int].node_path == hv[k as int].node_path);
                    assert(!hot_paths_wf(hv));
                }
                return false;
            }
            k2 = k2 + 1;
        }
        k = k + 1;
    }
    proof {
        assert(hot_paths_wf(hv));
    }
    true
}

} // verus!
