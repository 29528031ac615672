//! Ranking of root-to-node paths by cumulative cost.

use vstd::prelude::*;
use crate::builder::{ProfileModel, ProfileNode, HotPath, HotPathView, NodeView, nodes_wf, ink0};

verus! {

/// The cost metric a ranking is computed over.
#[derive(Clone, Copy, Debug, PartialEq, Eq, Structural)]
pub enum RankMetric {
    Gas,
    Ink,
    HostIoCount,
}

/// A node's score under a metric: its cumulative (subtree) value; Ink that
/// was never measured scores zero.
pub open spec fn node_score(n: NodeView, m: RankMetric) -> int {
    match m {
        RankMetric::Gas => n.cumulative_gas,
        RankMetric::Ink => ink0(n.cumulative_ink),
        RankMetric::HostIoCount => n.hostio_count,
    }
}

/// The root-to-node label chain of node `i`.
pub open spec fn spec_path(ns: Seq<NodeView>, i: int) -> Seq<Seq<char>>
    decreases i,
{
    if 0 < i < ns.len() && 0 <= ns[i].parent < i {
        spec_path(ns, ns[i].parent).push(ns[i].label)
    } else {
        seq![ns[0].label]
    }
}

/// Strict preference between candidate nodes: higher score first, ties by
/// greater HostIO count, then by earlier position in traversal order.
pub open spec fn prefer(ns: Seq<NodeView>, m: RankMetric, a: int, b: int) -> bool {
    ||| node_score(ns[a], m) > node_score(ns[b], m)
    ||| (node_score(ns[a], m) == node_score(ns[b], m) && ns[a].hostio_count > ns[b].hostio_count)
    ||| (node_score(ns[a], m) == node_score(ns[b], m) && ns[a].hostio_count == ns[b].hostio_count
        && a < b)
}

/// The most preferred not-yet-taken index at or after `k`, or -1.
pub open spec fn best_from(ns: Seq<NodeView>, m: RankMetric, taken: Seq<bool>, k: int) -> int
    decreases ns.len() - k,
    when 0 <= k
{
    if k >= ns.len() {
        -1
    } else {
        let rest = best_from(ns, m, taken, k + 1);
        if taken[k] {
            rest
        } else if rest == -1 {
            k
        } else if prefer(ns, m, rest, k) {
            rest
        } else {
            k
        }
    }
}

/// Marks every node sharing the chosen node's path as taken, so that each
/// distinct path is ranked at most once.
pub open spec fn mark_path(ns: Seq<NodeView>, taken: Seq<bool>, b: int) -> Seq<bool> {
    Seq::new(taken.len(), |q: int| taken[q] || spec_path(ns, q) == spec_path(ns, b))
}

/// The ranked tail starting at `rank`, with at most `remaining` entries.
pub open spec fn spec_top(
    ns: Seq<NodeView>,
    m: RankMetric,
    taken: Seq<bool>,
    rank: int,
    remaining: nat,
) -> Seq<HotPathView>
    decreases remaining,
{
    if remaining == 0 {
        Seq::empty()
    } else {
        let b = best_from(ns, m, taken, 0);
        if b < 0 {
            Seq::empty()
        } else {
            seq![
                HotPathView {
                    node_path: spec_path(ns, b),
                    metric_value: node_score(ns[b], m),
                    rank: rank,
                },
            ] + spec_top(ns, m, mark_path(ns, taken, b), rank + 1, (remaining - 1) as nat)
        }
    }
}

/// The ranking `top_n` returns: the `n` most expensive distinct paths,
/// highest first, ranks 1-based.
pub open spec fn spec_top_n(ns: Seq<NodeView>, n: int, m: RankMetric) -> Seq<HotPathView> {
    spec_top(ns, m, Seq::new(ns.len(), |q: int| false), 1, if n >= 0 {
        n as nat
    } else {
        0
    })
}

/// Hot-path determinism: the ranking is a function of the profile's nodes,
/// the requested count and the metric alone, so two calls of `top_n` on the
/// same profile with the same arguments return identical, identically
/// ordered results (each is ensured equal to [`spec_top_n`]).
pub proof fn lemma_top_n_deterministic(
    r1: Seq<HotPathView>,
    r2: Seq<HotPathView>,
    ns: Seq<NodeView>,
    n: int,
    m: RankMetric,
)
    requires
        r1 == spec_top_n(ns, n, m),
        r2 == spec_top_n(ns, n, m),
    ensures
        r1 == r2,
{
}

fn score_of(node: &ProfileNode, m: RankMetric) -> (r: u64)
    ensures
        r as int == node_score(node@, m),
{
    match m {
        RankMetric::Gas => node.cumulative_gas,
        RankMetric::Ink => match node.cumulative_ink {
            Some(v) => v,
            None => 0,
        },
        RankMetric::HostIoCount => node.hostio_count,
    }
}

fn paths_equal(a: &Vec<String>, b: &Vec<String>) -> (r: bool)
    ensures
        r == (a.deep_view() == b.deep_view()),
{
    proof {
        assert(a.deep_view().len() == a@.len());
        assert(b.deep_view().len() == b@.len());
    }
    if a.len() != b.len() {
        return false;
    }
    let mut i: usize = 0;
    while i < a.len()
        invariant
            i <= a.len(),
            a@.len() == b@.len(),
            a.deep_view().len() == a@.len(),
            b.deep_view().len() == b@.len(),
            forall|j: int| 0 <= j < i ==> a.deep_view()[j] == b.deep_view()[j],
        decreases a.len() - i,
    {
        proof {
            assert(a.deep_view()[i as int] == a@[i as int]@);
            assert(b.deep_view()[i as int] == b@[i as int]@);
        }
        if !(a[i] == b[i]) {
            return false;
        }
        i = i + 1;
    }
    proof {
        assert(a.deep_view() =~= b.deep_view());
    }
    true
}

/// Walks every node of the profile's tree and returns the `n` highest-
/// scoring distinct root-to-node paths under the chosen metric, ranked
/// descending with 1-based ranks; ties break by greater HostIO count, then
/// by earlier traversal order. The result is exactly [`spec_top_n`], so the
/// extraction is deterministic.
pub fn top_n(profile: &ProfileModel, n: usize, metric: RankMetric) -> (r: Vec<HotPath>)
    requires
        nodes_wf(profile.nodes.deep_view()),
    ensures
        r.deep_view() == spec_top_n(profile.nodes.deep_view(), n as int, metric),
        r@.len() <= n,
{
    let ghost ns = profile.nodes.deep_view();
    let len = profile.nodes.len();
    proof {
        assert(ns.len() == profile.nodes@.len());
    }
    // Precompute every node's root-to-node path.
    let mut paths: Vec<Vec<String>> = Vec::new();
    let mut i: usize = 0;
    while i < len
        invariant
            i <= len,
            ns == profile.nodes.deep_view(),
            ns.len() == len,
            len == profile.nodes@.len(),
            nodes_wf(ns),
            paths@.len() == i,
            forall|j: int| 0 <= j < i ==> (#[trigger] paths@[j]).deep_view() == spec_path(ns, j),
        decreases len - i,
    {
        proof {
            assert(ns[i as int] == profile.nodes@[i as int]@);
        }
        let node = &profile.nodes[i];
        let mut p: Vec<String>;
        if i == 0 {
            p = Vec::new();
            p.push(node.label.clone());
            proof {
                assert(p.deep_view() =~~= spec_path(ns, 0));
            }
        } else {
            let par = node.parent;
            proof {
                assert(0 <= ns[i as int].parent < i as int);
                assert(par as int == ns[i as int].parent);
            }
            p = Vec::new();
            let parent_path = &paths[par];
            let mut q: usize = 0;
            proof {
                assert(parent_path.deep_view().len() == parent_path@.len());
            }
            while q < parent_path.len()
                invariant
                    q <= parent_path@.len(),
                    parent_path.deep_view().len() == parent_path@.len(),
                    p@.len() == q,
                    p.deep_view().len() == q,
                    forall|j: int|
                        0 <= j < q ==> p.deep_view()[j] == (#[trigger] parent_path.deep_view()[j]),
                decreases parent_path@.len() - q,
            {
                p.push(parent_path[q].clone());
                proof {
                    assert(p.deep_view().len() == p@.len());
                    assert(p.deep_view()[q as int] == p@[q as int]@);
                    assert(parent_path.deep_view()[q as int] == parent_path@[q as int]@);
                }
                q = q + 1;
            }
            p.push(node.label.clone());
            proof {
                assert(p.deep_view().len() == p@.len());
                assert(p.deep_view()[parent_path@.len() as int] == p@[parent_path@.len() as int]@);
                assert(paths@[par as int].deep_view() == spec_path(ns, par as int));
                assert(p.deep_view() =~~= spec_path(ns, par as int).push(ns[i as int].label));
                assert(p.deep_view() =~~= spec_path(ns, i as int));
            }
        }
        paths.push(p);
        i = i + 1;
    }
    // Rank by repeated selection of the most preferred remaining path.
    let mut taken: Vec<bool> = Vec::new();
    let mut t: usize = 0;
    while t < len
        invariant
            t <= len,
            taken@.len() == t,
            forall|j: int| 0 <= j < t ==> !(#[trigger] taken@[j]),
        decreases len - t,
    {
        taken.push(false);
        t = t + 1;
    }
    proof {
        assert(taken@ =~= Seq::new(ns.len(), |q: int| false));
    }
    let mut out: Vec<HotPath> = Vec::new();
    let mut r0: usize = 0;
    let mut done = false;
    while r0 < n && !done
        invariant
            r0 <= n,
            done ==> out.deep_view() == spec_top_n(ns, n as int, metric),
            done ==> out@.len() <= n,
            ns == profile.nodes.deep_view(),
            ns.len() == len,
            len == profile.nodes@.len(),
            nodes_wf(ns),
            taken@.len() == len,
            paths@.len() == len,
            forall|j: int| 0 <= j < len ==> (#[trigger] paths@[j]).deep_view() == spec_path(ns, j),
            out@.len() == r0,
            spec_top_n(ns, n as int, metric) == out.deep_view() + spec_top(
                ns,
                metric,
                taken@,
                r0 as int + 1,
                (n - r0) as nat,
            ),
        decreases n - r0, (if done { 0int } else { 1int }),
    {
        let rank = r0 + 1;
        // Backward scan for the most preferred remaining candidate.
        let mut have = false;
        let mut best: usize = 0;
        let mut k: usize = len;
        while k > 0
            invariant
                k <= len,
                ns.len() == len,
                len == profile.nodes@.len(),
                ns == profile.nodes.deep_view(),
                taken@.len() == len,
                (if have {
                    best as int
                } else {
                    -1
                }) == best_from(ns, metric, taken@, k as int),
                have ==> best < len,
            decreases k,
        {
            let c = k - 1;
            proof {
                assert(ns[c as int] == profile.nodes@[c as int]@);
            }
            if !taken[c] {
                if !have {
                    have = true;
                    best = c;
                } else {
                    proof {
                        assert(ns[best as int] == profile.nodes@[best as int]@);
                    }
                    let cs = score_of(&profile.nodes[c], metric);
                    let bs = score_of(&profile.nodes[best], metric);
                    let ch = profile.nodes[c].hostio_count;
                    let bh = profile.nodes[best].hostio_count;
                    if !(bs > cs || (bs == cs && bh > ch) || (bs == cs && bh == ch && best < c)) {
                        best = c;
                    }
                }
            }
            k = c;
        }
        if !have {
            proof {
                assert(spec_top(ns, metric, taken@, r0 as int + 1, (n - r0) as nat) =~= Seq::<
                    HotPathView,
                >::empty());
                assert(out.deep_view() =~~= spec_top_n(ns, n as int, metric));
            }
            done = true;
        } else {
        let ghost taken_before = taken@;
        let score = score_of(&profile.nodes[best], metric);
        // Copy the chosen path.
        let chosen = &paths[best];
        let mut np: Vec<String> = Vec::new();
        let mut q: usize = 0;
        proof {
            assert(chosen.deep_view().len() == chosen@.len());
        }
        while q < chosen.len()
            invariant
                q <= chosen@.len(),
                chosen.deep_view().len() == chosen@.len(),
                np@.len() == q,
                np.deep_view().len() == q,
                forall|j: int|
                    0 <= j < q ==> np.deep_view()[j] == (#[trigger] chosen.deep_view()[j]),
            decreases chosen@.len() - q,
        {
            np.push(chosen[q].clone());
            proof {
                assert(np.deep_view().len() == np@.len());
                assert(np.deep_view()[q as int] == np@[q as int]@);
                assert(chosen.deep_view()[q as int] == chosen@[q as int]@);
            }
            q = q + 1;
        }
        proof {
            assert(np.deep_view() =~= spec_path(ns, best as int));
        }
        out.push(HotPath { node_path: np, metric_value: score, rank });
        // Retire every node sharing the chosen path.
        let mut w: usize = 0;
        while w < len
            invariant
                w <= len,
                len == profile.nodes@.len(),
                taken@.len() == len,
                paths@.len() == len,
                ns == profile.nodes.deep_view(),
                forall|j: int| 0 <= j < len ==> (#[trigger] paths@[j]).deep_view() == spec_path(ns, j),
                best < len,
                forall|j: int|
                    0 <= j < w ==> (#[trigger] taken@[j]) == (taken_before[j] || spec_path(ns, j)
                        == spec_path(ns, best as int)),
                forall|j: int| w <= j < len ==> (#[trigger] taken@[j]) == taken_before[j],
            decreases len - w,
        {
            if paths_equal(&paths[w], &paths[best]) {
                taken[w] = true;
            }
            proof {
                assert(paths@[w as int].deep_view() == spec_path(ns, w as int));
                assert(paths@[best as int].deep_view() == spec_path(ns, best as int));
            }
            w = w + 1;
        }
        proof {
            assert(taken@ =~= mark_path(ns, taken_before, best as int));
            assert(out.deep_view().last() =~~= spec_top(
                ns,
                metric,
                taken_before,
                r0 as int + 1,
                (n - r0) as nat,
            )[0]);
            assert(out.deep_view() + spec_top(
                ns,
                metric,
                taken@,
                r0 as int + 2,
                (n - r0 - 1) as nat,
            ) =~= spec_top_n(ns, n as int, metric));
        }
        r0 = r0 + 1;
        }
    }
    proof {
        if !done {
            assert(r0 == n);
            assert(spec_top(ns, metric, taken@, r0 as int + 1, (n - r0) as nat) =~= Seq::<
                HotPathView,
            >::empty());
            assert(out.deep_view() =~~= spec_top_n(ns, n as int, metric));
        }
    }
    out
}

} // verus!
