//! The interval between samples.

use crate::double::{
    law_every_quotient_rounds, lemma_units_grow, nearest, one, units, whole, zero, Double, INF,
    STEP,
};
use crate::numeral::{nanoseconds, parse_double, parsed, to_nanoseconds};
use crate::sysfs::Duration;
use crate::text::copy;
use vstd::arithmetic::power2::{lemma_pow2_pos, lemma_pow2_strictly_increases, pow2};
use vstd::prelude::*;

verus! {

/// The longest interval: a day.
pub const MAX_INTERVAL_SECS: u64 = 86_400;

/// Whether a number of seconds can be an interval: it is finite, is not so short
/// that no nanosecond is left of it, and is at most a day.
pub open spec fn is_interval(x: Double) -> bool {
    x.finite() && !x.at_most(zero()) && !whole(MAX_INTERVAL_SECS as nat).less(x) && nanoseconds(x)
        > 0
}

pub open spec fn interval_of(value: Seq<char>) -> Result<Double, Seq<char>> {
    match parsed(value) {
        Some(x) => if is_interval(x) {
            Ok(x)
        } else {
            Err("interval must be at least 1 nanosecond and at most 86400 seconds"@)
        },
        None => Err("interval must be a number"@),
    }
}

pub open spec fn interval_view(r: Result<Double, String>) -> Result<Double, Seq<char>> {
    match r {
        Ok(x) => Ok(x),
        Err(e) => Err(e@),
    }
}

/// A number that is at most a day is small.
proof fn lemma_a_day_is_small(x: Double)
    requires
        x.finite(),
        !x.at_most(zero()),
        !whole(MAX_INTERVAL_SECS as nat).less(x),
    ensures
        !x.negative(),
        x.size() < 0x1_0000_0000 * one(),
{
    let n = (MAX_INTERVAL_SECS as nat) * one();
    let m = nearest(n, 1);
    law_every_quotient_rounds(n, 1);
    lemma_pow2_pos(1074);
    if m > 0 {
        assert(2 * n >= (units((m - 1) as nat) + units(m)) * 1);
        assert(units(m) <= 2 * n);
    }
    if m == INF {
        assert(units(m) == (STEP as nat) * pow2(2046));
        lemma_pow2_strictly_increases(1074, 2046);
        assert((STEP as nat) * pow2(2046) > 2 * n) by (nonlinear_arith)
            requires
                pow2(2046) > one(),
                n == 86_400 * one(),
                STEP as nat > 172_800,
                one() > 0,
        ;
    }
    assert(whole(MAX_INTERVAL_SECS as nat).mag() == m);
    assert(x.mag() <= m);
    if x.mag() < m {
        lemma_units_grow(x.mag(), m);
    }
}

/// An interval from the command line.
pub fn parse_interval(value: &str) -> (r: Result<Double, String>)
    ensures
        interval_view(r) == interval_of(value@),
{
    let x = match parse_double(value) {
        Some(x) => x,
        None => {
            return Err(copy("interval must be a number"));
        },
    };
    proof {
        if x.finite() && !x.at_most(zero()) && !whole(MAX_INTERVAL_SECS as nat).less(x) {
            lemma_a_day_is_small(x);
        }
    }
    if x.is_finite() && !x.is_at_most(Double::zero()) && !Double::from_u64(
        MAX_INTERVAL_SECS,
    ).is_less(x) && to_nanoseconds(x) > 0 {
        Ok(x)
    } else {
        Err(copy("interval must be at least 1 nanosecond and at most 86400 seconds"))
    }
}

/// The nanoseconds of an interval.
pub fn interval_ns(x: Double) -> (r: Duration)
    requires
        is_interval(x),
    ensures
        r == nanoseconds(x),
        r > 0,
{
    proof {
        lemma_a_day_is_small(x);
    }
    to_nanoseconds(x)
}

/// An interval is a number of seconds above zero and up to a day.
pub proof fn law_intervals_are_up_to_a_day(value: Seq<char>, x: Double)
    requires
        parsed(value) == Some(x),
    ensures
        interval_of(value) matches Ok(y) ==> y == x && x.finite() && zero().less(x) && x.at_most(
            whole(86_400),
        ),
        x.finite() && zero().less(x) && x.at_most(whole(86_400)) && nanoseconds(x) > 0
            ==> interval_of(value) == Ok::<Double, Seq<char>>(x),
{
    crate::double::law_every_quotient_rounds(86_400 * crate::double::one(), 1);
}

/// What is no number is no interval.
pub proof fn law_words_are_no_interval(value: Seq<char>)
    requires
        parsed(value) is None,
    ensures
        interval_of(value) is Err,
{
}

} // verus!
