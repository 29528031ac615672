//! Persistence codec: a profile as a canonical byte document and back.
//!
//! The wire format is length-prefixed binary, little-endian throughout:
//! numbers as 8 bytes, an optional number as a presence byte followed by the
//! number, a string as its character count followed by one byte per
//! character (the document holds ASCII strings only), and a list as its
//! count followed by its elements. Deserializing a serialized profile
//! reproduces it exactly ([`lemma_model_roundtrip`]).

use vstd::prelude::*;
use vstd::bytes::{spec_u64_to_le_bytes, spec_u64_from_le_bytes, lemma_auto_spec_u64_to_from_le_bytes, u64_to_le_bytes, u64_from_le_bytes};
use crate::builder::{ProfileModel, ProfileNode, HotPath, ModelView, NodeView, HotPathView, opt_int};
use crate::errors::CodecError;

verus! {

pub open spec fn ser_u64(x: u64) -> Seq<u8> {
    spec_u64_to_le_bytes(x)
}

pub open spec fn parse_u64_at(b: Seq<u8>, p: int) -> Option<(u64, int)> {
    if 0 <= p && p + 8 <= b.len() {
        Some((spec_u64_from_le_bytes(b.subrange(p, p + 8)), p + 8))
    } else {
        None
    }
}

pub open spec fn ascii_ok(s: Seq<char>) -> bool {
    forall|i: int|
        0 <= i < s.len() ==> 0 <= ((#[trigger] s[i]) as int) && ((s[i]) as int) < 128
}

pub open spec fn ser_chars(s: Seq<char>) -> Seq<u8> {
    s.map_values(|c: char| c as u8)
}

pub open spec fn ser_str(s: Seq<char>) -> Seq<u8> {
    ser_u64(s.len() as u64) + ser_chars(s)
}

pub open spec fn parse_str_at(b: Seq<u8>, p: int) -> Option<(Seq<char>, int)> {
    match parse_u64_at(b, p) {
        None => None,
        Some((n, q)) => {
            if n <= usize::MAX as u64 && q + n <= b.len() && (forall|i: int|
                q <= i < q + n ==> (#[trigger] b[i]) < 128) {
                Some((b.subrange(q, q + n as int).map_values(|x: u8| x as char), q + n as int))
            } else {
                None
            }
        },
    }
}

pub open spec fn opt_u64_of(o: Option<int>) -> Option<u64> {
    match o {
        Some(v) => Some(v as u64),
        None => None,
    }
}

pub open spec fn ser_opt(o: Option<u64>) -> Seq<u8> {
    match o {
        None => seq![0u8],
        Some(x) => seq![1u8] + ser_u64(x),
    }
}

pub open spec fn parse_opt_at(b: Seq<u8>, p: int) -> Option<(Option<u64>, int)> {
    if 0 <= p < b.len() {
        if b[p] == 0 {
            Some((None, p + 1))
        } else if b[p] == 1 {
            match parse_u64_at(b, p + 1) {
                Some((x, q)) => Some((Some(x), q)),
                None => None,
            }
        } else {
            None
        }
    } else {
        None
    }
}

// Lists are encoded element after element, in order.

pub open spec fn ser_idx_list(cs: Seq<int>) -> Seq<u8>
    decreases cs.len(),
{
    if cs.len() == 0 {
        Seq::empty()
    } else {
        ser_idx_list(cs.drop_last()) + ser_u64(cs.last() as u64)
    }
}

pub open spec fn parse_idx_list(b: Seq<u8>, p: int, k: nat) -> Option<(Seq<int>, int)>
    decreases k,
{
    if k == 0 {
        Some((Seq::empty(), p))
    } else {
        match parse_u64_at(b, p) {
            None => None,
            Some((v, q)) => {
                if v <= usize::MAX as u64 {
                    match parse_idx_list(b, q, (k - 1) as nat) {
                        None => None,
                        Some((rest, r)) => Some((seq![v as int] + rest, r)),
                    }
                } else {
                    None
                }
            },
        }
    }
}

pub open spec fn ser_str_list(ss: Seq<Seq<char>>) -> Seq<u8>
    decreases ss.len(),
{
    if ss.len() == 0 {
        Seq::empty()
    } else {
        ser_str_list(ss.drop_last()) + ser_str(ss.last())
    }
}

pub open spec fn parse_str_list(b: Seq<u8>, p: int, k: nat) -> Option<(Seq<Seq<char>>, int)>
    decreases k,
{
    if k == 0 {
        Some((Seq::empty(), p))
    } else {
        match parse_str_at(b, p) {
            None => None,
            Some((s, q)) => match parse_str_list(b, q, (k - 1) as nat) {
                None => None,
                Some((rest, r)) => Some((seq![s] + rest, r)),
            },
        }
    }
}

pub open spec fn ser_node(n: NodeView) -> Seq<u8> {
    ser_str(n.label) + (ser_u64(n.parent as u64) + (ser_u64(n.children.len() as u64) + (
    ser_idx_list(n.children) + (ser_u64(n.self_gas as u64) + (ser_opt(opt_u64_of(n.self_ink)) + (
    ser_u64(n.self_hostio_count as u64) + (ser_u64(n.cumulative_gas as u64) + (ser_opt(
        opt_u64_of(n.cumulative_ink),
    ) + (ser_u64(n.hostio_count as u64) + ser_u64(n.call_count as u64))))))))))
}

pub open spec fn parse_node_at(b: Seq<u8>, p: int) -> Option<(NodeView, int)> {
    match parse_str_at(b, p) {
        None => None,
        Some((label, p1)) => match parse_u64_at(b, p1) {
            None => None,
            Some((parent, p2)) => {
                if parent > usize::MAX as u64 {
                    None
                } else {
                    match parse_u64_at(b, p2) {
                        None => None,
                        Some((ccount, p3)) => {
                            if ccount > usize::MAX as u64 {
                                None
                            } else {
                                match parse_idx_list(b, p3, ccount as nat) {
                                    None => None,
                                    Some((children, p4)) => match parse_u64_at(b, p4) {
                                        None => None,
                                        Some((self_gas, p5)) => match parse_opt_at(b, p5) {
                                            None => None,
                                            Some((self_ink, p6)) => match parse_u64_at(b, p6) {
                                                None => None,
                                                Some((self_hostio, p7)) => match parse_u64_at(
                                                    b,
                                                    p7,
                                                ) {
                                                    None => None,
                                                    Some((cum_gas, p8)) => match parse_opt_at(
                                                        b,
                                                        p8,
                                                    ) {
                                                        None => None,
                                                        Some((cum_ink, p9)) => match parse_u64_at(
                                                            b,
                                                            p9,
                                                        ) {
                                                            None => None,
                                                            Some((hostio, p10)) => match
                                                                parse_u64_at(b, p10) {
                                                                None => None,
                                                                Some((calls, p11)) => Some(
                                                                    (
                                                                        NodeView {
                                                                            label: label,
                                                                            parent: parent as int,
                                                                            children: children,
                                                                            self_gas: self_gas
                                                                                as int,
                                                                            self_ink: opt_int(
                                                                                self_ink,
                                                                            ),
                                                                            self_hostio_count:
                                                                                self_hostio as int,
                                                                            cumulative_gas:
                                                                                cum_gas as int,
                                                                            cumulative_ink:
                                                                                opt_int(cum_ink),
                                                                            hostio_count: hostio
                                                                                as int,
                                                                            call_count: calls
                                                                                as int,
                                                                        },
                                                                        p11,
                                                                    ),
                                                                ),
                                                            },
                                                        },
                                                    },
                                                },
                                            },
                                        },
                                    },
                                }
                            }
                        },
                    }
                }
            },
        },
    }
}

pub open spec fn ser_hot(h: HotPathView) -> Seq<u8> {
    ser_u64(h.node_path.len() as u64) + (ser_str_list(h.node_path) + (ser_u64(
        h.metric_value as u64,
    ) + ser_u64(h.rank as u64)))
}

pub open spec fn parse_hot_at(b: Seq<u8>, p: int) -> Option<(HotPathView, int)> {
    match parse_u64_at(b, p) {
        None => None,
        Some((count, p1)) => {
            if count > usize::MAX as u64 {
                None
            } else {
                match parse_str_list(b, p1, count as nat) {
                    None => None,
                    Some((path, p2)) => match parse_u64_at(b, p2) {
                        None => None,
                        Some((value, p3)) => match parse_u64_at(b, p3) {
                            None => None,
                            Some((rank, p4)) => {
                                if rank > usize::MAX as u64 {
                                    None
                                } else {
                                    Some(
                                        (
                                            HotPathView {
                                                node_path: path,
                                                metric_value: value as int,
                                                rank: rank as int,
                                            },
                                            p4,
                                        ),
                                    )
                                }
                            },
                        },
                    },
                }
            }
        },
    }
}

pub open spec fn ser_node_list(ns: Seq<NodeView>) -> Seq<u8>
    decreases ns.len(),
{
    if ns.len() == 0 {
        Seq::empty()
    } else {
        ser_node_list(ns.drop_last()) + ser_node(ns.last())
    }
}

pub open spec fn parse_node_list(b: Seq<u8>, p: int, k: nat) -> Option<(Seq<NodeView>, int)>
    decreases k,
{
    if k == 0 {
        Some((Seq::empty(), p))
    } else {
        match parse_node_at(b, p) {
            None => None,
            Some((n, q)) => match parse_node_list(b, q, (k - 1) as nat) {
                None => None,
                Some((rest, r)) => Some((seq![n] + rest, r)),
            },
        }
    }
}

pub open spec fn ser_hot_list(hs: Seq<HotPathView>) -> Seq<u8>
    decreases hs.len(),
{
    if hs.len() == 0 {
        Seq::empty()
    } else {
        ser_hot_list(hs.drop_last()) + ser_hot(hs.last())
    }
}

pub open spec fn parse_hot_list(b: Seq<u8>, p: int, k: nat) -> Option<(Seq<HotPathView>, int)>
    decreases k,
{
    if k == 0 {
        Some((Seq::empty(), p))
    } else {
        match parse_hot_at(b, p) {
            None => None,
            Some((h, q)) => match parse_hot_list(b, q, (k - 1) as nat) {
                None => None,
                Some((rest, r)) => Some((seq![h] + rest, r)),
            },
        }
    }
}

/// The whole document.
pub open spec fn ser_model(m: ModelView) -> Seq<u8> {
    ser_str(m.transaction_hash) + (ser_str(m.tracer_name) + (ser_u64(m.total_gas as u64) + (
    ser_opt(opt_u64_of(m.total_ink)) + (ser_u64(m.total_hostio_calls as u64) + (ser_u64(
        m.nodes.len() as u64,
    ) + (ser_node_list(m.nodes) + (ser_u64(m.hot_paths.len() as u64) + ser_hot_list(
        m.hot_paths,
    ))))))))
}

pub open spec fn parse_model_at(b: Seq<u8>, p: int) -> Option<(ModelView, int)> {
    match parse_str_at(b, p) {
        None => None,
        Some((tx, p1)) => match parse_str_at(b, p1) {
            None => None,
            Some((tracer, p2)) => match parse_u64_at(b, p2) {
                None => None,
                Some((total_gas, p3)) => match parse_opt_at(b, p3) {
                    None => None,
                    Some((total_ink, p4)) => match parse_u64_at(b, p4) {
                        None => None,
                        Some((total_hostio, p5)) => match parse_u64_at(b, p5) {
                            None => None,
                            Some((ncount, p6)) => {
                                if ncount > usize::MAX as u64 {
                                    None
                                } else {
                                    match parse_node_list(b, p6, ncount as nat) {
                                        None => None,
                                        Some((nodes, p7)) => match parse_u64_at(b, p7) {
                                            None => None,
                                            Some((hcount, p8)) => {
                                                if hcount > usize::MAX as u64 {
                                                    None
                                                } else {
                                                    match parse_hot_list(b, p8, hcount as nat) {
                                                        None => None,
                                                        Some((hots, p9)) => Some(
                                                            (
                                                                ModelView {
                                                                    nodes: nodes,
                                                                    transaction_hash: tx,
                                                                    tracer_name: tracer,
                                                                    total_gas: total_gas as int,
                                                                    total_ink: opt_int(total_ink),
                                                                    total_hostio_calls:
                                                                        total_hostio as int,
                                                                    hot_paths: hots,
                                                                },
                                                                p9,
                                                            ),
                                                        ),
                                                    }
                                                }
                                            },
                                        },
                                    }
                                }
                            },
                        },
                    },
                },
            },
        },
    }
}

/// What a parsed document denotes: the model, when the bytes are exactly
/// one well-formed document.
pub open spec fn parse_model(b: Seq<u8>) -> Option<ModelView> {
    match parse_model_at(b, 0) {
        Some((m, q)) => {
            if q == b.len() {
                Some(m)
            } else {
                None
            }
        },
        None => None,
    }
}

// ---------------------------------------------------------------------------
// Well-formedness of what the document can carry.
// ---------------------------------------------------------------------------

pub open spec fn str_ok(s: Seq<char>) -> bool {
    ascii_ok(s) && s.len() <= usize::MAX as int
}

pub open spec fn idx_ok(cs: Seq<int>) -> bool {
    cs.len() <= usize::MAX as int && forall|i: int|
        0 <= i < cs.len() ==> 0 <= #[trigger] cs[i] <= usize::MAX as int
}

pub open spec fn metric_ok(v: int) -> bool {
    0 <= v <= u64::MAX as int
}

pub open spec fn opt_ok(o: Option<int>) -> bool {
    match o {
        Some(v) => metric_ok(v),
        None => true,
    }
}

pub open spec fn node_ok(n: NodeView) -> bool {
    &&& str_ok(n.label)
    &&& 0 <= n.parent <= usize::MAX as int
    &&& idx_ok(n.children)
    &&& metric_ok(n.self_gas)
    &&& opt_ok(n.self_ink)
    &&& metric_ok(n.self_hostio_count)
    &&& metric_ok(n.cumulative_gas)
    &&& opt_ok(n.cumulative_ink)
    &&& metric_ok(n.hostio_count)
    &&& metric_ok(n.call_count)
}

pub open spec fn hot_ok(h: HotPathView) -> bool {
    &&& h.node_path.len() <= usize::MAX as int
    &&& forall|i: int| 0 <= i < h.node_path.len() ==> str_ok(#[trigger] h.node_path[i])
    &&& metric_ok(h.metric_value)
    &&& 0 <= h.rank <= usize::MAX as int
}

/// Every value in the model lies in the ranges the document can carry and
/// every string is ASCII; true of any profile whose strings are ASCII.
pub open spec fn model_ok(m: ModelView) -> bool {
    &&& str_ok(m.transaction_hash)
    &&& str_ok(m.tracer_name)
    &&& metric_ok(m.total_gas)
    &&& opt_ok(m.total_ink)
    &&& metric_ok(m.total_hostio_calls)
    &&& m.nodes.len() <= usize::MAX as int
    &&& forall|i: int| 0 <= i < m.nodes.len() ==> node_ok(#[trigger] m.nodes[i])
    &&& m.hot_paths.len() <= usize::MAX as int
    &&& forall|i: int| 0 <= i < m.hot_paths.len() ==> hot_ok(#[trigger] m.hot_paths[i])
}

// ---------------------------------------------------------------------------
// Round trip: parsing a serialized value yields the value.
// ---------------------------------------------------------------------------

proof fn lemma_peel(b: Seq<u8>, p: int, x: Seq<u8>, y: Seq<u8>)
    requires
        0 <= p,
        p + x.len() + y.len() <= b.len(),
        b.subrange(p, p + x.len() + y.len()) == x + y,
    ensures
        b.subrange(p, p + x.len() as int) == x,
        b.subrange(p + x.len() as int, p + x.len() + y.len()) == y,
{
    assert(b.subrange(p, p + x.len() as int) =~= x) by {
        assert(forall|i: int|
            0 <= i < x.len() ==> b.subrange(p, p + x.len() + y.len())[i] == (x + y)[i]);
    }
    assert(b.subrange(p + x.len() as int, p + x.len() + y.len()) =~= y) by {
        assert forall|i: int| 0 <= i < y.len() implies b.subrange(
            p + x.len() as int,
            p + x.len() + y.len(),
        )[i] == y[i] by {
            assert((x + y)[x.len() + i] == y[i]);
            assert(b.subrange(p, p + x.len() + y.len())[x.len() + i] == b[p + x.len() + i]);
            assert(b.subrange(p + x.len() as int, p + x.len() + y.len())[i] == b[p + x.len() + i]);
        }
    }
}

proof fn lemma_rt_u64(b: Seq<u8>, p: int, x: u64)
    requires
        0 <= p,
        p + 8 <= b.len(),
        b.subrange(p, p + 8) == ser_u64(x),
    ensures
        parse_u64_at(b, p) == Some((x, p + 8)),
        ser_u64(x).len() == 8,
{
    lemma_auto_spec_u64_to_from_le_bytes();
}

proof fn lemma_ser_u64_len(x: u64)
    ensures
        ser_u64(x).len() == 8,
{
    lemma_auto_spec_u64_to_from_le_bytes();
}

proof fn lemma_rt_str(b: Seq<u8>, p: int, s: Seq<char>)
    requires
        str_ok(s),
        0 <= p,
        p + ser_str(s).len() <= b.len(),
        b.subrange(p, p + ser_str(s).len() as int) == ser_str(s),
    ensures
        parse_str_at(b, p) == Some((s, p + ser_str(s).len())),
        ser_str(s).len() == 8 + s.len(),
{
    lemma_ser_u64_len(s.len() as u64);
    lemma_peel(b, p, ser_u64(s.len() as u64), ser_chars(s));
    lemma_rt_u64(b, p, s.len() as u64);
    let q = p + 8;
    let n = s.len() as int;
    assert forall|j: int| 0 <= j < n implies (#[trigger] b[q + j]) == s[j] as u8 by {
        assert(b.subrange(q, q + n)[j] == b[q + j]);
        assert(ser_chars(s)[j] == s[j] as u8);
    }
    assert forall|i: int| q <= i < q + n implies (#[trigger] b[i]) < 128 by {
        let j = i - q;
        let c: char = s[j];
        assert(b[q + j] == c as u8);
        assert((c as int) < 128);
        assert(0 <= c as int);
        assert((c as u8) as int == c as int);
        assert(b[i] == b[q + j]);
    }
    assert(b.subrange(q, q + n).map_values(|x: u8| x as char) =~= s) by {
        assert forall|j: int| 0 <= j < n implies b.subrange(q, q + n).map_values(
            |x: u8| x as char,
        )[j] == s[j] by {
            let c: char = s[j];
            assert(b.subrange(q, q + n)[j] == b[q + j]);
            assert(b[q + j] == c as u8);
            assert(0 <= c as int);
            assert((c as int) < 128);
            assert((c as u8) as int == c as int);
            assert(((c as u8) as char) == c);
        }
    }
}

proof fn lemma_rt_opt(b: Seq<u8>, p: int, o: Option<u64>)
    requires
        0 <= p,
        p + ser_opt(o).len() <= b.len(),
        b.subrange(p, p + ser_opt(o).len() as int) == ser_opt(o),
    ensures
        parse_opt_at(b, p) == Some((o, p + ser_opt(o).len())),
        ser_opt(o).len() == (if o is Some {
            9int
        } else {
            1int
        }),
{
    match o {
        None => {
            assert(b.subrange(p, p + 1)[0] == b[p]);
        },
        Some(x) => {
            lemma_ser_u64_len(x);
            lemma_peel(b, p, seq![1u8], ser_u64(x));
            assert(b.subrange(p, p + 1)[0] == b[p]);
            lemma_rt_u64(b, p + 1, x);
        },
    }
}

proof fn lemma_idx_list_first(cs: Seq<int>)
    requires
        cs.len() > 0,
    ensures
        ser_idx_list(cs) == ser_u64(cs[0] as u64) + ser_idx_list(cs.drop_first()),
    decreases cs.len(),
{
    if cs.len() == 1 {
        assert(cs.drop_last() =~= Seq::<int>::empty());
        assert(cs.drop_first() =~= Seq::<int>::empty());
        assert(ser_idx_list(cs) =~= ser_u64(cs[0] as u64) + ser_idx_list(cs.drop_first()));
    } else {
        let dl = cs.drop_last();
        let df = cs.drop_first();
        lemma_idx_list_first(dl);
        assert(dl.drop_first() =~= df.drop_last());
        assert(df.last() == cs.last());
        assert(dl[0] == cs[0]);
        assert(ser_idx_list(df) == ser_idx_list(df.drop_last()) + ser_u64(df.last() as u64));
        assert(ser_idx_list(cs) =~= ser_u64(cs[0] as u64) + ser_idx_list(df));
    }
}

proof fn lemma_rt_idx_list(b: Seq<u8>, p: int, cs: Seq<int>)
    requires
        idx_ok(cs),
        0 <= p,
        p + ser_idx_list(cs).len() <= b.len(),
        b.subrange(p, p + ser_idx_list(cs).len() as int) == ser_idx_list(cs),
    ensures
        parse_idx_list(b, p, cs.len() as nat) == Some((cs, p + ser_idx_list(cs).len())),
    decreases cs.len(),
{
    if cs.len() == 0 {
        assert(parse_idx_list(b, p, 0) == Some((Seq::<int>::empty(), p)));
        assert(cs =~= Seq::<int>::empty());
    } else {
        lemma_idx_list_first(cs);
        lemma_ser_u64_len(cs[0] as u64);
        lemma_peel(b, p, ser_u64(cs[0] as u64), ser_idx_list(cs.drop_first()));
        lemma_rt_u64(b, p, cs[0] as u64);
        assert(idx_ok(cs.drop_first())) by {
            assert(forall|i: int|
                0 <= i < cs.drop_first().len() ==> #[trigger] cs.drop_first()[i] == cs[i + 1]);
        }
        lemma_rt_idx_list(b, p + 8, cs.drop_first());
        assert(seq![cs[0]] + cs.drop_first() =~= cs);
    }
}

proof fn lemma_str_list_first(ss: Seq<Seq<char>>)
    requires
        ss.len() > 0,
    ensures
        ser_str_list(ss) == ser_str(ss[0]) + ser_str_list(ss.drop_first()),
    decreases ss.len(),
{
    if ss.len() == 1 {
        assert(ss.drop_last() =~= Seq::<Seq<char>>::empty());
        assert(ss.drop_first() =~= Seq::<Seq<char>>::empty());
        assert(ser_str_list(ss) =~= ser_str(ss[0]) + ser_str_list(ss.drop_first()));
    } else {
        let dl = ss.drop_last();
        let df = ss.drop_first();
        lemma_str_list_first(dl);
        assert(dl.drop_first() =~= df.drop_last());
        assert(df.last() == ss.last());
        assert(dl[0] == ss[0]);
        assert(ser_str_list(df) == ser_str_list(df.drop_last()) + ser_str(df.last()));
        assert(ser_str_list(ss) =~= ser_str(ss[0]) + ser_str_list(df));
    }
}

proof fn lemma_rt_str_list(b: Seq<u8>, p: int, ss: Seq<Seq<char>>)
    requires
        forall|i: int| 0 <= i < ss.len() ==> str_ok(#[trigger] ss[i]),
        0 <= p,
        p + ser_str_list(ss).len() <= b.len(),
        b.subrange(p, p + ser_str_list(ss).len() as int) == ser_str_list(ss),
    ensures
        parse_str_list(b, p, ss.len() as nat) == Some((ss, p + ser_str_list(ss).len())),
    decreases ss.len(),
{
    if ss.len() == 0 {
        assert(ss =~= Seq::<Seq<char>>::empty());
    } else {
        lemma_str_list_first(ss);
        lemma_peel(b, p, ser_str(ss[0]), ser_str_list(ss.drop_first()));
        lemma_rt_str(b, p, ss[0]);
        assert(forall|i: int|
            0 <= i < ss.drop_first().len() ==> #[trigger] ss.drop_first()[i] == ss[i + 1]);
        lemma_rt_str_list(b, p + ser_str(ss[0]).len(), ss.drop_first());
        assert(seq![ss[0]] + ss.drop_first() =~= ss);
    }
}

proof fn lemma_rt_node(b: Seq<u8>, p: int, n: NodeView)
    requires
        node_ok(n),
        0 <= p,
        p + ser_node(n).len() <= b.len(),
        b.subrange(p, p + ser_node(n).len() as int) == ser_node(n),
    ensures
        parse_node_at(b, p) == Some((n, p + ser_node(n).len())),
    decreases 0int,
{
    lemma_auto_spec_u64_to_from_le_bytes();
    let f1 = ser_str(n.label);
    let f2 = ser_u64(n.parent as u64);
    let f3 = ser_u64(n.children.len() as u64);
    let f4 = ser_idx_list(n.children);
    let f5 = ser_u64(n.self_gas as u64);
    let f6 = ser_opt(opt_u64_of(n.self_ink));
    let f7 = ser_u64(n.self_hostio_count as u64);
    let f8 = ser_u64(n.cumulative_gas as u64);
    let f9 = ser_opt(opt_u64_of(n.cumulative_ink));
    let f10 = ser_u64(n.hostio_count as u64);
    let f11 = ser_u64(n.call_count as u64);
    let r10 = f11;
    let r9 = f10 + r10;
    let r8 = f9 + r9;
    let r7 = f8 + r8;
    let r6 = f7 + r7;
    let r5 = f6 + r6;
    let r4 = f5 + r5;
    let r3 = f4 + r4;
    let r2 = f3 + r3;
    let r1 = f2 + r2;
    assert(ser_node(n) == f1 + r1);
    lemma_peel(b, p, f1, r1);
    let p1 = p + f1.len();
    lemma_rt_str(b, p, n.label);
    lemma_peel(b, p1, f2, r2);
    let p2 = p1 + f2.len();
    lemma_rt_u64(b, p1, n.parent as u64);
    lemma_peel(b, p2, f3, r3);
    let p3 = p2 + f3.len();
    lemma_rt_u64(b, p2, n.children.len() as u64);
    lemma_peel(b, p3, f4, r4);
    let p4 = p3 + f4.len();
    lemma_rt_idx_list(b, p3, n.children);
    lemma_peel(b, p4, f5, r5);
    let p5 = p4 + f5.len();
    lemma_rt_u64(b, p4, n.self_gas as u64);
    lemma_peel(b, p5, f6, r6);
    let p6 = p5 + f6.len();
    lemma_rt_opt(b, p5, opt_u64_of(n.self_ink));
    lemma_peel(b, p6, f7, r7);
    let p7 = p6 + f7.len();
    lemma_rt_u64(b, p6, n.self_hostio_count as u64);
    lemma_peel(b, p7, f8, r8);
    let p8 = p7 + f8.len();
    lemma_rt_u64(b, p7, n.cumulative_gas as u64);
    lemma_peel(b, p8, f9, r9);
    let p9 = p8 + f9.len();
    lemma_rt_opt(b, p8, opt_u64_of(n.cumulative_ink));
    lemma_peel(b, p9, f10, r10);
    let p10 = p9 + f10.len();
    lemma_rt_u64(b, p9, n.hostio_count as u64);
    lemma_rt_u64(b, p10, n.call_count as u64);
    let p11 = p10 + f11.len();
    assert(opt_int(opt_u64_of(n.self_ink)) == n.self_ink);
    assert(opt_int(opt_u64_of(n.cumulative_ink)) == n.cumulative_ink);
    assert(parse_node_at(b, p) matches Some((pn, q)) && q == p11);
    let (pn, q) = parse_node_at(b, p)->Some_0;
    assert(pn =~= n);
}

proof fn lemma_rt_hot(b: Seq<u8>, p: int, h: HotPathView)
    requires
        hot_ok(h),
        0 <= p,
        p + ser_hot(h).len() <= b.len(),
        b.subrange(p, p + ser_hot(h).len() as int) == ser_hot(h),
    ensures
        parse_hot_at(b, p) == Some((h, p + ser_hot(h).len())),
{
    lemma_auto_spec_u64_to_from_le_bytes();
    let f1 = ser_u64(h.node_path.len() as u64);
    let f2 = ser_str_list(h.node_path);
    let f3 = ser_u64(h.metric_value as u64);
    let f4 = ser_u64(h.rank as u64);
    let r3 = f4;
    let r2 = f3 + r3;
    let r1 = f2 + r2;
    assert(ser_hot(h) == f1 + r1);
    lemma_peel(b, p, f1, r1);
    let p1 = p + f1.len();
    lemma_rt_u64(b, p, h.node_path.len() as u64);
    lemma_peel(b, p1, f2, r2);
    let p2 = p1 + f2.len();
    lemma_rt_str_list(b, p1, h.node_path);
    lemma_peel(b, p2, f3, r3);
    let p3 = p2 + f3.len();
    lemma_rt_u64(b, p2, h.metric_value as u64);
    lemma_rt_u64(b, p3, h.rank as u64);
    let p4 = p3 + f4.len();
    assert(parse_hot_at(b, p) matches Some((ph, q)) && q == p4);
    let (ph, q) = parse_hot_at(b, p)->Some_0;
    assert(ph =~= h);
}

proof fn lemma_node_list_first(ns: Seq<NodeView>)
    requires
        ns.len() > 0,
    ensures
        ser_node_list(ns) == ser_node(ns[0]) + ser_node_list(ns.drop_first()),
    decreases ns.len(),
{
    if ns.len() == 1 {
        assert(ns.drop_last() =~= Seq::<NodeView>::empty());
        assert(ns.drop_first() =~= Seq::<NodeView>::empty());
        assert(ser_node_list(ns) =~= ser_node(ns[0]) + ser_node_list(ns.drop_first()));
    } else {
        let dl = ns.drop_last();
        let df = ns.drop_first();
        lemma_node_list_first(dl);
        assert(dl.drop_first() =~= df.drop_last());
        assert(df.last() == ns.last());
        assert(dl[0] == ns[0]);
        assert(ser_node_list(df) == ser_node_list(df.drop_last()) + ser_node(df.last()));
        assert(ser_node_list(ns) =~= ser_node(ns[0]) + ser_node_list(df));
    }
}

proof fn lemma_rt_node_list(b: Seq<u8>, p: int, ns: Seq<NodeView>)
    requires
        forall|i: int| 0 <= i < ns.len() ==> node_ok(#[trigger] ns[i]),
        0 <= p,
        p + ser_node_list(ns).len() <= b.len(),
        b.subrange(p, p + ser_node_list(ns).len() as int) == ser_node_list(ns),
    ensures
        parse_node_list(b, p, ns.len() as nat) == Some((ns, p + ser_node_list(ns).len())),
    decreases ns.len(),
{
    if ns.len() == 0 {
        assert(ns =~= Seq::<NodeView>::empty());
    } else {
        lemma_node_list_first(ns);
        lemma_peel(b, p, ser_node(ns[0]), ser_node_list(ns.drop_first()));
        lemma_rt_node(b, p, ns[0]);
        assert(forall|i: int|
            0 <= i < ns.drop_first().len() ==> #[trigger] ns.drop_first()[i] == ns[i + 1]);
        lemma_rt_node_list(b, p + ser_node(ns[0]).len(), ns.drop_first());
        assert(seq![ns[0]] + ns.drop_first() =~= ns);
    }
}

proof fn lemma_hot_list_first(hs: Seq<HotPathView>)
    requires
        hs.len() > 0,
    ensures
        ser_hot_list(hs) == ser_hot(hs[0]) + ser_hot_list(hs.drop_first()),
    decreases hs.len(),
{
    if hs.len() == 1 {
        assert(hs.drop_last() =~= Seq::<HotPathView>::empty());
        assert(hs.drop_first() =~= Seq::<HotPathView>::empty());
        assert(ser_hot_list(hs) =~= ser_hot(hs[0]) + ser_hot_list(hs.drop_first()));
    } else {
        let dl = hs.drop_last();
        let df = hs.drop_first();
        lemma_hot_list_first(dl);
        assert(dl.drop_first() =~= df.drop_last());
        assert(df.last() == hs.last());
        assert(dl[0] == hs[0]);
        assert(ser_hot_list(df) == ser_hot_list(df.drop_last()) + ser_hot(df.last()));
        assert(ser_hot_list(hs) =~= ser_hot(hs[0]) + ser_hot_list(df));
    }
}

proof fn lemma_rt_hot_list(b: Seq<u8>, p: int, hs: Seq<HotPathView>)
    requires
        forall|i: int| 0 <= i < hs.len() ==> hot_ok(#[trigger] hs[i]),
        0 <= p,
        p + ser_hot_list(hs).len() <= b.len(),
        b.subrange(p, p + ser_hot_list(hs).len() as int) == ser_hot_list(hs),
    ensures
        parse_hot_list(b, p, hs.len() as nat) == Some((hs, p + ser_hot_list(hs).len())),
    decreases hs.len(),
{
    if hs.len() == 0 {
        assert(hs =~= Seq::<HotPathView>::empty());
    } else {
        lemma_hot_list_first(hs);
        lemma_peel(b, p, ser_hot(hs[0]), ser_hot_list(hs.drop_first()));
        lemma_rt_hot(b, p, hs[0]);
        assert(forall|i: int|
            0 <= i < hs.drop_first().len() ==> #[trigger] hs.drop_first()[i] == hs[i + 1]);
        lemma_rt_hot_list(b, p + ser_hot(hs[0]).len(), hs.drop_first());
        assert(seq![hs[0]] + hs.drop_first() =~= hs);
    }
}

proof fn lemma_rt_model(b: Seq<u8>, p: int, m: ModelView)
    requires
        model_ok(m),
        0 <= p,
        p + ser_model(m).len() <= b.len(),
        b.subrange(p, p + ser_model(m).len() as int) == ser_model(m),
    ensures
        parse_model_at(b, p) == Some((m, p + ser_model(m).len())),
{
    lemma_auto_spec_u64_to_from_le_bytes();
    let f1 = ser_str(m.transaction_hash);
    let f2 = ser_str(m.tracer_name);
    let f3 = ser_u64(m.total_gas as u64);
    let f4 = ser_opt(opt_u64_of(m.total_ink));
    let f5 = ser_u64(m.total_hostio_calls as u64);
    let f6 = ser_u64(m.nodes.len() as u64);
    let f7 = ser_node_list(m.nodes);
    let f8 = ser_u64(m.hot_paths.len() as u64);
    let f9 = ser_hot_list(m.hot_paths);
    let r8 = f9;
    let r7 = f8 + r8;
    let r6 = f7 + r7;
    let r5 = f6 + r6;
    let r4 = f5 + r5;
    let r3 = f4 + r4;
    let r2 = f3 + r3;
    let r1 = f2 + r2;
    assert(ser_model(m) == f1 + r1);
    lemma_peel(b, p, f1, r1);
    let p1 = p + f1.len();
    lemma_rt_str(b, p, m.transaction_hash);
    lemma_peel(b, p1, f2, r2);
    let p2 = p1 + f2.len();
    lemma_rt_str(b, p1, m.tracer_name);
    lemma_peel(b, p2, f3, r3);
    let p3 = p2 + f3.len();
    lemma_rt_u64(b, p2, m.total_gas as u64);
    lemma_peel(b, p3, f4, r4);
    let p4 = p3 + f4.len();
    lemma_rt_opt(b, p3, opt_u64_of(m.total_ink));
    lemma_peel(b, p4, f5, r5);
    let p5 = p4 + f5.len();
    lemma_rt_u64(b, p4, m.total_hostio_calls as u64);
    lemma_peel(b, p5, f6, r6);
    let p6 = p5 + f6.len();
    lemma_rt_u64(b, p5, m.nodes.len() as u64);
    lemma_peel(b, p6, f7, r7);
    let p7 = p6 + f7.len();
    lemma_rt_node_list(b, p6, m.nodes);
    lemma_peel(b, p7, f8, r8);
    let p8 = p7 + f8.len();
    lemma_rt_u64(b, p7, m.hot_paths.len() as u64);
    lemma_rt_hot_list(b, p8, m.hot_paths);
    let p9 = p8 + f9.len();
    assert(opt_int(opt_u64_of(m.total_ink)) == m.total_ink);
    assert(parse_model_at(b, p) matches Some((pm, q)) && q == p9);
    let (pm, q) = parse_model_at(b, p)->Some_0;
    assert(pm =~= m);
}

/// Round trip: for every profile the document can carry, parsing its
/// serialization reproduces it exactly.
pub proof fn lemma_model_roundtrip(m: ModelView)
    requires
        model_ok(m),
    ensures
        parse_model(ser_model(m)) == Some(m),
{
    let b = ser_model(m);
    assert(b.subrange(0, b.len() as int) =~= b);
    lemma_rt_model(b, 0, m);
}

// ---------------------------------------------------------------------------
// The executable serializer.
// ---------------------------------------------------------------------------

fn str_ascii(s: &String) -> (r: bool)
    ensures
        r == ascii_ok(s@),
        s@.len() <= usize::MAX as int,
{
    let n = s.as_str().unicode_len();
    let mut i: usize = 0;
    while i < n
        invariant
            i <= n,
            n == s@.len(),
            forall|j: int|
                0 <= j < i ==> 0 <= ((#[trigger] s@[j]) as int) && ((s@[j]) as int) < 128,
        decreases n - i,
    {
        let c = s.as_str().get_char(i);
        if !((c as u32) < 128) {
            return false;
        }
        i = i + 1;
    }
    true
}

fn emit_u64(out: &mut Vec<u8>, x: u64)
    ensures
        final(out)@ == old(out)@ + ser_u64(x),
{
    let mut bs = u64_to_le_bytes(x);
    out.append(&mut bs);
}

fn emit_opt(out: &mut Vec<u8>, o: &Option<u64>)
    ensures
        final(out)@ == old(out)@ + ser_opt(*o),
{
    match o {
        None => {
            out.push(0);
            proof {
                assert(final(out)@ =~= old(out)@ + ser_opt(None::<u64>));
            }
        },
        Some(x) => {
            out.push(1);
            emit_u64(out, *x);
            proof {
                assert(final(out)@ =~= old(out)@ + ser_opt(Some(*x)));
            }
        },
    }
}

fn emit_str(out: &mut Vec<u8>, s: &String)
    requires
        ascii_ok(s@),
    ensures
        final(out)@ == old(out)@ + ser_str(s@),
{
    let ghost base = out@;
    let n = s.as_str().unicode_len();
    emit_u64(out, n as u64);
    let mut i: usize = 0;
    while i < n
        invariant
            i <= n,
            n == s@.len(),
            ascii_ok(s@),
            out@ == base + ser_u64(n as u64) + ser_chars(s@.take(i as int)),
        decreases n - i,
    {
        let c = s.as_str().get_char(i);
        out.push(c as u8);
        proof {
            assert(ser_chars(s@.take(i as int + 1)) =~= ser_chars(s@.take(i as int)).push(
                s@[i as int] as u8,
            ));
            assert(out@ =~= base + ser_u64(n as u64) + ser_chars(s@.take(i as int + 1)));
        }
        i = i + 1;
    }
    proof {
        assert(s@.take(n as int) =~= s@);
        assert(out@ =~= base + ser_str(s@));
    }
}

fn emit_idx_list(out: &mut Vec<u8>, cs: &Vec<usize>)
    ensures
        final(out)@ == old(out)@ + ser_idx_list(cs@.map_values(|u: usize| u as int)),
{
    let ghost base = out@;
    let ghost csv = cs@.map_values(|u: usize| u as int);
    let mut i: usize = 0;
    while i < cs.len()
        invariant
            i <= cs@.len(),
            csv == cs@.map_values(|u: usize| u as int),
            out@ == base + ser_idx_list(csv.take(i as int)),
        decreases cs@.len() - i,
    {
        emit_u64(out, cs[i] as u64);
        proof {
            assert(csv.take(i as int + 1).drop_last() =~= csv.take(i as int));
            assert(csv.take(i as int + 1).last() == csv[i as int]);
            assert(cs@[i as int] as u64 == csv[i as int] as u64);
            assert(out@ =~= base + ser_idx_list(csv.take(i as int + 1)));
        }
        i = i + 1;
    }
    proof {
        assert(csv.take(cs@.len() as int) =~= csv);
    }
}

#[verifier::spinoff_prover]
proof fn lemma_assoc11(
    b0: Seq<u8>,
    f1: Seq<u8>,
    f2: Seq<u8>,
    f3: Seq<u8>,
    f4: Seq<u8>,
    f5: Seq<u8>,
    f6: Seq<u8>,
    f7: Seq<u8>,
    f8: Seq<u8>,
    f9: Seq<u8>,
    f10: Seq<u8>,
    f11: Seq<u8>,
)
    ensures
        b0 + f1 + f2 + f3 + f4 + f5 + f6 + f7 + f8 + f9 + f10 + f11 == b0 + (f1 + (f2 + (f3 + (f4
            + (f5 + (f6 + (f7 + (f8 + (f9 + (f10 + f11)))))))))),
{
    assert(b0 + f1 + f2 + f3 + f4 + f5 + f6 + f7 + f8 + f9 + f10 + f11 =~= b0 + (f1 + (f2 + (f3 + (
    f4 + (f5 + (f6 + (f7 + (f8 + (f9 + (f10 + f11)))))))))));
}

#[verifier::spinoff_prover]
proof fn lemma_assoc9(
    b0: Seq<u8>,
    f1: Seq<u8>,
    f2: Seq<u8>,
    f3: Seq<u8>,
    f4: Seq<u8>,
    f5: Seq<u8>,
    f6: Seq<u8>,
    f7: Seq<u8>,
    f8: Seq<u8>,
    f9: Seq<u8>,
)
    ensures
        b0 + f1 + f2 + f3 + f4 + f5 + f6 + f7 + f8 + f9 == b0 + (f1 + (f2 + (f3 + (f4 + (f5 + (f6
            + (f7 + (f8 + f9)))))))),
{
    assert(b0 + f1 + f2 + f3 + f4 + f5 + f6 + f7 + f8 + f9 =~= b0 + (f1 + (f2 + (f3 + (f4 + (f5 + (
    f6 + (f7 + (f8 + f9)))))))));
}

#[verifier::rlimit(100)]
fn emit_node(out: &mut Vec<u8>, n: &ProfileNode)
    requires
        ascii_ok(n@.label),
    ensures
        final(out)@ == old(out)@ + ser_node(n@),
{
    let ghost base = out@;
    emit_str(out, &n.label);
    emit_u64(out, n.parent as u64);
    emit_u64(out, n.children.len() as u64);
    emit_idx_list(out, &n.children);
    emit_u64(out, n.self_gas);
    emit_opt(out, &n.self_ink);
    emit_u64(out, n.self_hostio_count);
    emit_u64(out, n.cumulative_gas);
    emit_opt(out, &n.cumulative_ink);
    emit_u64(out, n.hostio_count);
    emit_u64(out, n.call_count);
    proof {
        assert(opt_u64_of(n@.self_ink) == n.self_ink);
        assert(opt_u64_of(n@.cumulative_ink) == n.cumulative_ink);
        lemma_assoc11(
            base,
            ser_str(n@.label),
            ser_u64(n@.parent as u64),
            ser_u64(n@.children.len() as u64),
            ser_idx_list(n@.children),
            ser_u64(n@.self_gas as u64),
            ser_opt(opt_u64_of(n@.self_ink)),
            ser_u64(n@.self_hostio_count as u64),
            ser_u64(n@.cumulative_gas as u64),
            ser_opt(opt_u64_of(n@.cumulative_ink)),
            ser_u64(n@.hostio_count as u64),
            ser_u64(n@.call_count as u64),
        );
        assert(n@.children == n.children@.map_values(|u: usize| u as int));
        assert(out@ == base + ser_node(n@));
    }
}

fn emit_hot(out: &mut Vec<u8>, h: &HotPath)
    requires
        forall|i: int| 0 <= i < h@.node_path.len() ==> ascii_ok(#[trigger] h@.node_path[i]),
    ensures
        final(out)@ == old(out)@ + ser_hot(h@),
{
    let ghost base = out@;
    let ghost pv = h.node_path.deep_view();
    emit_u64(out, h.node_path.len() as u64);
    proof {
        assert(pv.len() == h.node_path@.len());
        assert(pv == h@.node_path);
    }
    let mut i: usize = 0;
    while i < h.node_path.len()
        invariant
            i <= h.node_path@.len(),
            pv == h.node_path.deep_view(),
            pv.len() == h.node_path@.len(),
            forall|j: int| 0 <= j < pv.len() ==> ascii_ok(#[trigger] pv[j]),
            out@ == base + ser_u64(h.node_path@.len() as u64) + ser_str_list(pv.take(i as int)),
        decreases h.node_path@.len() - i,
    {
        proof {
            assert(pv[i as int] == h.node_path@[i as int]@);
        }
        emit_str(out, &h.node_path[i]);
        proof {
            assert(pv.take(i as int + 1).drop_last() =~= pv.take(i as int));
            assert(pv.take(i as int + 1).last() == pv[i as int]);
            assert(out@ =~= base + ser_u64(h.node_path@.len() as u64) + ser_str_list(
                pv.take(i as int + 1),
            ));
        }
        i = i + 1;
    }
    proof {
        assert(pv.take(pv.len() as int) =~= pv);
    }
    emit_u64(out, h.metric_value);
    emit_u64(out, h.rank as u64);
    proof {
        assert(out@ =~= base + ser_hot(h@));
    }
}

/// Whether every string the profile holds is ASCII: exactly the profiles
/// the document format can carry.
pub fn model_ascii(m: &ProfileModel) -> (r: bool)
    ensures
        r == model_ok(m@),
{
    if !str_ascii(&m.transaction_hash) {
        return false;
    }
    if !str_ascii(&m.tracer_name) {
        return false;
    }
    let ghost nv = m.nodes.deep_view();
    proof {
        assert(nv.len() == m.nodes@.len());
    }
    let mut i: usize = 0;
    while i < m.nodes.len()
        invariant
            i <= m.nodes@.len(),
            nv == m.nodes.deep_view(),
            nv.len() == m.nodes@.len(),
            forall|j: int| 0 <= j < i ==> node_ok(#[trigger] nv[j]),
        decreases m.nodes@.len() - i,
    {
        proof {
            assert(nv[i as int] == m.nodes@[i as int]@);
        }
        if !str_ascii(&m.nodes[i].label) {
            proof {
                assert(!node_ok(nv[i as int]));
            }
            return false;
        }
        // Reading the child list's length puts its bound in scope for the
        // node's range conditions.
        let _cl = m.nodes[i].children.len();
        proof {
            assert(node_ok(nv[i as int])) by {
                assert(nv[i as int].children =~= m.nodes@[i as int].children@.map_values(
                    |u: usize| u as int,
                ));
            }
        }
        i = i + 1;
    }
    let ghost hv = m.hot_paths.deep_view();
    proof {
        assert(hv.len() == m.hot_paths@.len());
    }
    let mut k: usize = 0;
    while k < m.hot_paths.len()
        invariant
            k <= m.hot_paths@.len(),
            hv == m.hot_paths.deep_view(),
            hv.len() == m.hot_paths@.len(),
            forall|j: int| 0 <= j < k ==> hot_ok(#[trigger] hv[j]),
        decreases m.hot_paths@.len() - k,
    {
        proof {
            assert(hv[k as int] == m.hot_paths@[k as int]@);
        }
        let ghost pv = m.hot_paths@[k as int].node_path.deep_view();
        let hp = &m.hot_paths[k];
        let mut q: usize = 0;
        proof {
            assert(pv.len() == hp.node_path@.len());
        }
        while q < hp.node_path.len()
            invariant
                q <= hp.node_path@.len(),
                pv == hp.node_path.deep_view(),
                pv.len() == hp.node_path@.len(),
                hp == &m.hot_paths@[k as int],
                k < hv.len(),
                hv[k as int].node_path == pv,
                hv == m.hot_paths.deep_view(),
                forall|j: int| 0 <= j < q ==> str_ok(#[trigger] pv[j]),
            decreases hp.node_path@.len() - q,
        {
            proof {
                assert(pv[q as int] == hp.node_path@[q as int]@);
            }
            if !str_ascii(&hp.node_path[q]) {
                proof {
                    assert(!str_ok(pv[q as int]));
                    assert(hv[k as int].node_path == pv);
                    assert(!hot_ok(hv[k as int]));
                    assert(m@.hot_paths == hv);
                    assert(!model_ok(m@));
                }
                return false;
            }
            q = q + 1;
        }
        proof {
            assert(hot_ok(hv[k as int]));
        }
        k = k + 1;
    }
    proof {
        assert(model_ok(m@));
    }
    true
}

/// Serializes a profile into one canonical byte document.
///
/// Succeeds exactly when every string in the profile is ASCII (the format's
/// one restriction), and then the bytes are exactly [`ser_model`] of the
/// profile, so deserializing them reproduces it.
pub fn serialize(m: &ProfileModel) -> (r: Result<Vec<u8>, CodecError>)
    ensures
        match r {
            Ok(bs) => model_ok(m@) && bs@ == ser_model(m@),
            Err(e) => !model_ok(m@) && e == CodecError::MalformedDocument,
        },
{
    if !model_ascii(m) {
        return Err(CodecError::MalformedDocument);
    }
    let ghost nv = m.nodes.deep_view();
    let ghost hv = m.hot_paths.deep_view();
    let mut out: Vec<u8> = Vec::new();
    emit_str(&mut out, &m.transaction_hash);
    emit_str(&mut out, &m.tracer_name);
    emit_u64(&mut out, m.total_gas);
    emit_opt(&mut out, &m.total_ink);
    emit_u64(&mut out, m.total_hostio_calls);
    emit_u64(&mut out, m.nodes.len() as u64);
    let ghost mid = out@;
    let mut i: usize = 0;
    while i < m.nodes.len()
        invariant
            i <= m.nodes@.len(),
            nv == m.nodes.deep_view(),
            nv.len() == m.nodes@.len(),
            forall|j: int| 0 <= j < nv.len() ==> node_ok(#[trigger] nv[j]),
            out@ == mid + ser_node_list(nv.take(i as int)),
        decreases m.nodes@.len() - i,
    {
        proof {
            assert(nv[i as int] == m.nodes@[i as int]@);
        }
        emit_node(&mut out, &m.nodes[i]);
        proof {
            assert(nv.take(i as int + 1).drop_last() =~= nv.take(i as int));
            assert(nv.take(i as int + 1).last() == nv[i as int]);
            assert(out@ =~= mid + ser_node_list(nv.take(i as int + 1)));
        }
        i = i + 1;
    }
    proof {
        assert(nv.take(nv.len() as int) =~= nv);
    }
    emit_u64(&mut out, m.hot_paths.len() as u64);
    let ghost mid2 = out@;
    let mut k: usize = 0;
    while k < m.hot_paths.len()
        invariant
            k <= m.hot_paths@.len(),
            hv == m.hot_paths.deep_view(),
            hv.len() == m.hot_paths@.len(),
            forall|j: int| 0 <= j < hv.len() ==> hot_ok(#[trigger] hv[j]),
            out@ == mid2 + ser_hot_list(hv.take(k as int)),
        decreases m.hot_paths@.len() - k,
    {
        proof {
            assert(hv[k as int] == m.hot_paths@[k as int]@);
            assert(forall|j: int|
                0 <= j < hv[k as int].node_path.len() ==> ascii_ok(
                    #[trigger] hv[k as int].node_path[j],
                ));
        }
        emit_hot(&mut out, &m.hot_paths[k]);
        proof {
            assert(hv.take(k as int + 1).drop_last() =~= hv.take(k as int));
            assert(hv.take(k as int + 1).last() == hv[k as int]);
            assert(out@ =~= mid2 + ser_hot_list(hv.take(k as int + 1)));
        }
        k = k + 1;
    }
    proof {
        assert(hv.take(hv.len() as int) =~= hv);
        assert(out@ =~= ser_model(m@));
    }
    Ok(out)
}

// ---------------------------------------------------------------------------
// The executable deserializer.
// ---------------------------------------------------------------------------

/// Relies on String::from_utf8: ASCII bytes are valid UTF-8 and decode to
/// one character per byte.
#[verifier::external_body]
fn string_from_ascii(bytes: Vec<u8>) -> (r: String)
    requires
        forall|i: int| 0 <= i < bytes@.len() ==> (#[trigger] bytes@[i]) < 128,
    ensures
        r@ == bytes@.map_values(|x: u8| x as char),
{
    String::from_utf8(bytes).unwrap_or_default()
}

fn read_u64(b: &Vec<u8>, p: usize) -> (r: Option<(u64, usize)>)
    ensures
        match r {
            Some((v, q)) => parse_u64_at(b@, p as int) == Some((v, q as int)) && q <= b@.len(),
            None => parse_u64_at(b@, p as int) is None,
        },
{
    if b.len() < 8 || p > b.len() - 8 {
        return None;
    }
    let mut tmp: Vec<u8> = Vec::new();
    let mut i: usize = 0;
    while i < 8
        invariant
            i <= 8,
            p + 8 <= b@.len(),
            b@.len() <= usize::MAX,
            tmp@.len() == i,
            forall|j: int| 0 <= j < i ==> #[trigger] tmp@[j] == b@[p + j],
        decreases 8 - i,
    {
        tmp.push(b[p + i]);
        i = i + 1;
    }
    proof {
        assert(tmp@ =~= b@.subrange(p as int, p as int + 8));
    }
    let v = u64_from_le_bytes(tmp.as_slice());
    Some((v, p + 8))
}

fn read_opt(b: &Vec<u8>, p: usize) -> (r: Option<(Option<u64>, usize)>)
    ensures
        match r {
            Some((v, q)) => parse_opt_at(b@, p as int) == Some((v, q as int)) && q <= b@.len(),
            None => parse_opt_at(b@, p as int) is None,
        },
{
    if p >= b.len() {
        return None;
    }
    let tag = b[p];
    if tag == 0 {
        Some((None, p + 1))
    } else if tag == 1 {
        match read_u64(b, p + 1) {
            None => None,
            Some((x, q)) => Some((Some(x), q)),
        }
    } else {
        None
    }
}

fn read_str(b: &Vec<u8>, p: usize) -> (r: Option<(String, usize)>)
    ensures
        match r {
            Some((s, q)) => parse_str_at(b@, p as int) == Some((s@, q as int)) && q <= b@.len(),
            None => parse_str_at(b@, p as int) is None,
        },
{
    match read_u64(b, p) {
        None => None,
        Some((n, q)) => {
            if n > usize::MAX as u64 {
                return None;
            }
            let n_us = n as usize;
            if n_us > b.len() - q {
                proof {
                    assert(q + n > b@.len());
                }
                return None;
            }
            let mut tmp: Vec<u8> = Vec::new();
            let mut i: usize = 0;
            while i < n_us
                invariant
                    i <= n_us,
                    n_us as int == n as int,
                    parse_u64_at(b@, p as int) == Some((n, q as int)),
                    n <= usize::MAX as u64,
                    q + n_us <= b@.len(),
                    b@.len() <= usize::MAX,
                    tmp@.len() == i,
                    forall|j: int|
                        0 <= j < i ==> #[trigger] tmp@[j] == b@[q + j] && b@[q + j] < 128,
                decreases n_us - i,
            {
                let byte = b[q + i];
                if byte >= 128 {
                    proof {
                        let w = q + i as int;
                        assert(b@[w] >= 128);
                        assert(q <= w < q + n);
                        assert(!(forall|x: int| q <= x < q + n ==> (#[trigger] b@[x]) < 128))
                            by {
                            assert(!(q <= w < q + n ==> b@[w] < 128));
                        }
                    }
                    return None;
                }
                tmp.push(byte);
                i = i + 1;
            }
            proof {
                assert(tmp@ =~= b@.subrange(q as int, q as int + n_us as int));
                assert(n as int == n_us as int);
                assert forall|x: int| q <= x < q + n implies (#[trigger] b@[x]) < 128 by {
                    let j = x - q;
                    assert(0 <= j < n_us);
                    assert(tmp@[j] == b@[q + j]);
                    assert(b@[q + j] < 128);
                }
            }
            let ghost tv = tmp@;
            let s = string_from_ascii(tmp);
            proof {
                assert(s@ =~= b@.subrange(q as int, q + n as int).map_values(
                    |x: u8| x as char,
                ));
            }
            Some((s, q + n_us))
        },
    }
}

pub open spec fn idx_view(v: Seq<usize>) -> Seq<int> {
    v.map_values(|u: usize| u as int)
}

fn read_idx_list(b: &Vec<u8>, p: usize, k: usize) -> (r: Option<(Vec<usize>, usize)>)
    ensures
        match r {
            Some((v, q)) => parse_idx_list(b@, p as int, k as nat) == Some(
                (idx_view(v@), q as int),
            ) && v@.len() == k,
            None => parse_idx_list(b@, p as int, k as nat) is None,
        },
    decreases k,
{
    if k == 0 {
        let v: Vec<usize> = Vec::new();
        proof {
            assert(idx_view(v@) =~= Seq::<int>::empty());
        }
        return Some((v, p));
    }
    match read_u64(b, p) {
        None => None,
        Some((v, q)) => {
            if v > usize::MAX as u64 {
                return None;
            }
            match read_idx_list(b, q, k - 1) {
                None => None,
                Some((mut rest, r2)) => {
                    rest.insert(0, v as usize);
                    proof {
                        assert(idx_view(rest@) =~= seq![v as int] + idx_view(
                            rest@.subrange(1, rest@.len() as int),
                        ));
                    }
                    Some((rest, r2))
                },
            }
        },
    }
}

fn read_str_list(b: &Vec<u8>, p: usize, k: usize) -> (r: Option<(Vec<String>, usize)>)
    ensures
        match r {
            Some((v, q)) => parse_str_list(b@, p as int, k as nat) == Some(
                (v.deep_view(), q as int),
            ),
            None => parse_str_list(b@, p as int, k as nat) is None,
        },
    decreases k,
{
    if k == 0 {
        let v: Vec<String> = Vec::new();
        proof {
            assert(v.deep_view() =~= Seq::<Seq<char>>::empty());
        }
        return Some((v, p));
    }
    match read_str(b, p) {
        None => None,
        Some((s, q)) => {
            match read_str_list(b, q, k - 1) {
                None => None,
                Some((mut rest, r2)) => {
                    let ghost old_dv = rest.deep_view();
                    rest.insert(0, s);
                    proof {
                        assert(rest.deep_view() =~~= seq![s@] + old_dv);
                    }
                    Some((rest, r2))
                },
            }
        },
    }
}

fn read_node(b: &Vec<u8>, p: usize) -> (r: Option<(ProfileNode, usize)>)
    ensures
        match r {
            Some((n, q)) => parse_node_at(b@, p as int) == Some((n@, q as int)) && q <= b@.len(),
            None => parse_node_at(b@, p as int) is None,
        },
{
    let (label, p1) = match read_str(b, p) {
        None => {
            return None;
        },
        Some(x) => x,
    };
    let (parent, p2) = match read_u64(b, p1) {
        None => {
            return None;
        },
        Some(x) => x,
    };
    if parent > usize::MAX as u64 {
        return None;
    }
    let (ccount, p3) = match read_u64(b, p2) {
        None => {
            return None;
        },
        Some(x) => x,
    };
    if ccount > usize::MAX as u64 {
        return None;
    }
    let (children, p4) = match read_idx_list(b, p3, ccount as usize) {
        None => {
            return None;
        },
        Some(x) => x,
    };
    let (self_gas, p5) = match read_u64(b, p4) {
        None => {
            return None;
        },
        Some(x) => x,
    };
    let (self_ink, p6) = match read_opt(b, p5) {
        None => {
            return None;
        },
        Some(x) => x,
    };
    let (self_hostio, p7) = match read_u64(b, p6) {
        None => {
            return None;
        },
        Some(x) => x,
    };
    let (cum_gas, p8) = match read_u64(b, p7) {
        None => {
            return None;
        },
        Some(x) => x,
    };
    let (cum_ink, p9) = match read_opt(b, p8) {
        None => {
            return None;
        },
        Some(x) => x,
    };
    let (hostio, p10) = match read_u64(b, p9) {
        None => {
            return None;
        },
        Some(x) => x,
    };
    let (calls, p11) = match read_u64(b, p10) {
        None => {
            return None;
        },
        Some(x) => x,
    };
    let node = ProfileNode {
        label,
        parent: parent as usize,
        children,
        self_gas,
        self_ink,
        self_hostio_count: self_hostio,
        cumulative_gas: cum_gas,
        cumulative_ink: cum_ink,
        hostio_count: hostio,
        call_count: calls,
    };
    proof {
        let spec_n = parse_node_at(b@, p as int)->Some_0.0;
        assert(node@ =~= spec_n);
    }
    Some((node, p11))
}

fn read_node_list(b: &Vec<u8>, p: usize, k: usize) -> (r: Option<(Vec<ProfileNode>, usize)>)
    ensures
        match r {
            Some((v, q)) => parse_node_list(b@, p as int, k as nat) == Some(
                (v.deep_view(), q as int),
            ),
            None => parse_node_list(b@, p as int, k as nat) is None,
        },
    decreases k,
{
    if k == 0 {
        let v: Vec<ProfileNode> = Vec::new();
        proof {
            assert(v.deep_view() =~= Seq::<NodeView>::empty());
        }
        return Some((v, p));
    }
    match read_node(b, p) {
        None => None,
        Some((n, q)) => {
            match read_node_list(b, q, k - 1) {
                None => None,
                Some((mut rest, r2)) => {
                    let ghost nv = n@;
                    let ghost old_dv = rest.deep_view();
                    rest.insert(0, n);
                    proof {
                        assert(rest.deep_view() =~~= seq![nv] + old_dv);
                    }
                    Some((rest, r2))
                },
            }
        },
    }
}

fn read_hot(b: &Vec<u8>, p: usize) -> (r: Option<(HotPath, usize)>)
    ensures
        match r {
            Some((h, q)) => parse_hot_at(b@, p as int) == Some((h@, q as int)) && q <= b@.len(),
            None => parse_hot_at(b@, p as int) is None,
        },
{
    let (count, p1) = match read_u64(b, p) {
        None => {
            return None;
        },
        Some(x) => x,
    };
    if count > usize::MAX as u64 {
        return None;
    }
    let (path, p2) = match read_str_list(b, p1, count as usize) {
        None => {
            return None;
        },
        Some(x) => x,
    };
    let (value, p3) = match read_u64(b, p2) {
        None => {
            return None;
        },
        Some(x) => x,
    };
    let (rank, p4) = match read_u64(b, p3) {
        None => {
            return None;
        },
        Some(x) => x,
    };
    if rank > usize::MAX as u64 {
        return None;
    }
    let h = HotPath { node_path: path, metric_value: value, rank: rank as usize };
    proof {
        let spec_h = parse_hot_at(b@, p as int)->Some_0.0;
        assert(h@ =~= spec_h);
    }
    Some((h, p4))
}

fn read_hot_list(b: &Vec<u8>, p: usize, k: usize) -> (r: Option<(Vec<HotPath>, usize)>)
    ensures
        match r {
            Some((v, q)) => parse_hot_list(b@, p as int, k as nat) == Some(
                (v.deep_view(), q as int),
            ),
            None => parse_hot_list(b@, p as int, k as nat) is None,
        },
    decreases k,
{
    if k == 0 {
        let v: Vec<HotPath> = Vec::new();
        proof {
            assert(v.deep_view() =~= Seq::<HotPathView>::empty());
        }
        return Some((v, p));
    }
    match read_hot(b, p) {
        None => None,
        Some((h, q)) => {
            match read_hot_list(b, q, k - 1) {
                None => None,
                Some((mut rest, r2)) => {
                    let ghost hvv = h@;
                    let ghost old_dv = rest.deep_view();
                    rest.insert(0, h);
                    proof {
                        assert(rest.deep_view() =~~= seq![hvv] + old_dv);
                    }
                    Some((rest, r2))
                },
            }
        },
    }
}

/// Reads a profile back from one canonical byte document.
///
/// Returns the profile the bytes denote ([`parse_model`]); any bytes that
/// are not exactly one well-formed document are rejected. Together with
/// [`serialize`] and [`lemma_model_roundtrip`]: deserializing a serialized
/// profile returns a profile equal to the original.
pub fn deserialize(b: &Vec<u8>) -> (r: Result<ProfileModel, CodecError>)
    ensures
        match r {
            Ok(m) => parse_model(b@) == Some(m@),
            Err(e) => parse_model(b@) is None && e == CodecError::MalformedDocument,
        },
{
    let (tx, p1) = match read_str(b, 0) {
        None => {
            return Err(CodecError::MalformedDocument);
        },
        Some(x) => x,
    };
    let (tracer, p2) = match read_str(b, p1) {
        None => {
            return Err(CodecError::MalformedDocument);
        },
        Some(x) => x,
    };
    let (total_gas, p3) = match read_u64(b, p2) {
        None => {
            return Err(CodecError::MalformedDocument);
        },
        Some(x) => x,
    };
    let (total_ink, p4) = match read_opt(b, p3) {
        None => {
            return Err(CodecError::MalformedDocument);
        },
        Some(x) => x,
    };
    let (total_hostio, p5) = match read_u64(b, p4) {
        None => {
            return Err(CodecError::MalformedDocument);
        },
        Some(x) => x,
    };
    let (ncount, p6) = match read_u64(b, p5) {
        None => {
            return Err(CodecError::MalformedDocument);
        },
        Some(x) => x,
    };
    if ncount > usize::MAX as u64 {
        return Err(CodecError::MalformedDocument);
    }
    let (nodes, p7) = match read_node_list(b, p6, ncount as usize) {
        None => {
            return Err(CodecError::MalformedDocument);
        },
        Some(x) => x,
    };
    let (hcount, p8) = match read_u64(b, p7) {
        None => {
            return Err(CodecError::MalformedDocument);
        },
        Some(x) => x,
    };
    if hcount > usize::MAX as u64 {
        return Err(CodecError::MalformedDocument);
    }
    let (hots, p9) = match read_hot_list(b, p8, hcount as usize) {
        None => {
            return Err(CodecError::MalformedDocument);
        },
        Some(x) => x,
    };
    if p9 != b.len() {
        return Err(CodecError::MalformedDocument);
    }
    let m = ProfileModel {
        nodes,
        transaction_hash: tx,
        tracer_name: tracer,
        total_gas,
        total_ink,
        total_hostio_calls: total_hostio,
        hot_paths: hots,
    };
    proof {
        let spec_m = parse_model_at(b@, 0)->Some_0.0;
        assert(m@ =~= spec_m);
    }
    Ok(m)
}

} // verus!

