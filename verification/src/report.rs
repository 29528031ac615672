//! Human-readable rendering of profiles and diff results.

use vstd::prelude::*;
use vstd::string::*;
use crate::builder::ProfileModel;
use crate::diff::{DiffResult, Verdict};

verus! {

/// The decimal digit characters of `v`, most significant first.
pub open spec fn spec_decimal(v: int) -> Seq<char>
    decreases v,
{
    if v < 0 {
        Seq::empty()
    } else if v < 10 {
        seq![digit_char(v)]
    } else {
        spec_decimal(v / 10).push(digit_char(v % 10))
    }
}

pub open spec fn digit_char(d: int) -> char {
    if d == 0 {
        '0'
    } else if d == 1 {
        '1'
    } else if d == 2 {
        '2'
    } else if d == 3 {
        '3'
    } else if d == 4 {
        '4'
    } else if d == 5 {
        '5'
    } else if d == 6 {
        '6'
    } else if d == 7 {
        '7'
    } else if d == 8 {
        '8'
    } else {
        '9'
    }
}

fn append_digit(s: &mut String, d: u64)
    requires
        d < 10,
    ensures
        final(s)@ == old(s)@.push(digit_char(d as int)),
{
    proof {
        reveal_strlit("0");
        reveal_strlit("1");
        reveal_strlit("2");
        reveal_strlit("3");
        reveal_strlit("4");
        reveal_strlit("5");
        reveal_strlit("6");
        reveal_strlit("7");
        reveal_strlit("8");
        reveal_strlit("9");
    }
    match d {
        0 => s.append("0"),
        1 => s.append("1"),
        2 => s.append("2"),
        3 => s.append("3"),
        4 => s.append("4"),
        5 => s.append("5"),
        6 => s.append("6"),
        7 => s.append("7"),
        8 => s.append("8"),
        _ => s.append("9"),
    }
    proof {
        assert(final(s)@ =~= old(s)@.push(digit_char(d as int)));
    }
}

/// Renders a number in decimal.
pub fn u64_to_string(v: u64) -> (r: String)
    ensures
        r@ == spec_decimal(v as int),
    decreases v,
{
    let mut s: String;
    if v < 10 {
        s = String::new();
        append_digit(&mut s, v);
        proof {
            assert(s@ =~= spec_decimal(v as int));
        }
    } else {
        s = u64_to_string(v / 10);
        append_digit(&mut s, v % 10);
    }
    s
}

/// The verdict's display name.
pub fn verdict_text(v: &Verdict) -> (r: &'static str)
    ensures
        v is Pass ==> r@ == "PASS"@,
        v is Fail ==> r@ == "FAIL"@,
{
    match v {
        Verdict::Pass => "PASS",
        Verdict::Fail => "FAIL",
    }
}

/// One-line summary of a profile: its transaction, total gas and HostIO
/// crossings, in a fixed phrasing.
pub fn profile_summary(m: &ProfileModel) -> (r: String)
    ensures
        r@ == "profile "@ + m.transaction_hash@ + ": total_gas="@ + spec_decimal(
            m.total_gas as int,
        ) + " total_hostio_calls="@ + spec_decimal(m.total_hostio_calls as int),
{
    let mut s = String::from_str("profile ");
    s.append(m.transaction_hash.as_str());
    s.append(": total_gas=");
    let g = u64_to_string(m.total_gas);
    s.append(g.as_str());
    s.append(" total_hostio_calls=");
    let h = u64_to_string(m.total_hostio_calls);
    s.append(h.as_str());
    s
}

/// One-line summary of a comparison: the verdict and the number of flagged
/// regressions, in a fixed phrasing.
pub fn diff_summary(d: &DiffResult) -> (r: String)
    ensures
        d.overall_verdict is Pass ==> r@ == "verdict=PASS regressions="@ + spec_decimal(
            d.regressions@.len() as int,
        ),
        d.overall_verdict is Fail ==> r@ == "verdict=FAIL regressions="@ + spec_decimal(
            d.regressions@.len() as int,
        ),
{
    let mut s = match d.overall_verdict {
        Verdict::Pass => String::from_str("verdict=PASS regressions="),
        Verdict::Fail => String::from_str("verdict=FAIL regressions="),
    };
    let n = u64_to_string(d.regressions.len() as u64);
    s.append(n.as_str());
    proof {
        assert(d.regressions@.len() as u64 as int == d.regressions@.len() as int);
    }
    s
}

} // verus!
