//! Numbers and times as the interface writes them.

use crate::double::{larger, product, quotient, whole, zero, Double};
use crate::numeral::{fixed, fixed_text, parse_double, parsed, truncate, truncated};
use crate::text::{cat2, cat3, cat4, copy, count, decimal, item, u64_text, views, words, words_of};
use crate::theme::{clamp, clamped};
use vstd::prelude::*;

verus! {

/// Bytes per second in decimal units, with one place after the point.
pub open spec fn rate_text(x: Double) -> Seq<char> {
    if whole(1_000_000_000).at_most(x) {
        fixed(quotient(x, whole(1_000_000_000)), 1) + " GB"@
    } else if whole(1_000_000).at_most(x) {
        fixed(quotient(x, whole(1_000_000)), 1) + " MB"@
    } else if whole(1_000).at_most(x) {
        fixed(quotient(x, whole(1_000)), 1) + " KB"@
    } else {
        fixed(x, 0) + " B"@
    }
}

pub fn format_bytes(bytes_per_sec: Double) -> (r: String)
    ensures
        r@ == rate_text(bytes_per_sec),
{
    let giga = Double::from_u64(1_000_000_000);
    let mega = Double::from_u64(1_000_000);
    let kilo = Double::from_u64(1_000);
    if giga.is_at_most(bytes_per_sec) {
        cat2(fixed_text(bytes_per_sec.over(giga), 1).as_str(), " GB")
    } else if mega.is_at_most(bytes_per_sec) {
        cat2(fixed_text(bytes_per_sec.over(mega), 1).as_str(), " MB")
    } else if kilo.is_at_most(bytes_per_sec) {
        cat2(fixed_text(bytes_per_sec.over(kilo), 1).as_str(), " KB")
    } else {
        cat2(fixed_text(bytes_per_sec, 0).as_str(), " B")
    }
}

/// The same without places and spaces.
pub open spec fn short_text(x: Double) -> Seq<char> {
    if whole(1_000_000_000).at_most(x) {
        fixed(quotient(x, whole(1_000_000_000)), 0) + "G"@
    } else if whole(1_000_000).at_most(x) {
        fixed(quotient(x, whole(1_000_000)), 0) + "M"@
    } else if whole(1_000).at_most(x) {
        fixed(quotient(x, whole(1_000)), 0) + "K"@
    } else {
        fixed(x, 0) + "B"@
    }
}

pub fn format_bytes_short(v: Double) -> (r: String)
    ensures
        r@ == short_text(v),
{
    let giga = Double::from_u64(1_000_000_000);
    let mega = Double::from_u64(1_000_000);
    let kilo = Double::from_u64(1_000);
    if giga.is_at_most(v) {
        cat2(fixed_text(v.over(giga), 0).as_str(), "G")
    } else if mega.is_at_most(v) {
        cat2(fixed_text(v.over(mega), 0).as_str(), "M")
    } else if kilo.is_at_most(v) {
        cat2(fixed_text(v.over(kilo), 0).as_str(), "K")
    } else {
        cat2(fixed_text(v, 0).as_str(), "B")
    }
}

/// Bytes per second, or a dash where there are none.
pub open spec fn some_bytes(x: Double) -> Seq<char> {
    if zero().less(x) {
        short_text(x)
    } else {
        "—"@
    }
}

pub fn format_some_bytes(x: Double) -> (r: String)
    ensures
        r@ == some_bytes(x),
{
    if Double::zero().is_less(x) {
        format_bytes_short(x)
    } else {
        copy("—")
    }
}

/// A latency in the unit that suits it.
pub open spec fn latency_text(ns: u64) -> Seq<char> {
    if ns >= 1_000_000_000 {
        fixed(quotient(whole(ns as nat), whole(1_000_000_000)), 1) + " s"@
    } else if ns >= 1_000_000 {
        fixed(quotient(whole(ns as nat), whole(1_000_000)), 1) + " ms"@
    } else if ns >= 1_000 {
        fixed(quotient(whole(ns as nat), whole(1_000)), 0) + " µs"@
    } else {
        decimal(ns as nat) + " ns"@
    }
}

pub fn format_latency(ns: u64) -> (r: String)
    ensures
        r@ == latency_text(ns),
{
    let n = Double::from_u64(ns);
    if ns >= 1_000_000_000 {
        cat2(fixed_text(n.over(Double::from_u64(1_000_000_000)), 1).as_str(), " s")
    } else if ns >= 1_000_000 {
        cat2(fixed_text(n.over(Double::from_u64(1_000_000)), 1).as_str(), " ms")
    } else if ns >= 1_000 {
        cat2(fixed_text(n.over(Double::from_u64(1_000)), 0).as_str(), " µs")
    } else {
        cat2(u64_text(ns).as_str(), " ns")
    }
}

/// The time of an operation; a dash where none was measured.
pub open spec fn operation_text(ns: u64) -> Seq<char> {
    if ns == 0 {
        "—"@
    } else if ns >= 1_000_000_000 {
        fixed(quotient(whole(ns as nat), whole(1_000_000_000)), 1) + "s"@
    } else if ns >= 1_000_000 {
        fixed(quotient(whole(ns as nat), whole(1_000_000)), 1) + "ms"@
    } else if ns >= 1_000 {
        fixed(quotient(whole(ns as nat), whole(1_000)), 0) + "µs"@
    } else {
        decimal(ns as nat) + "ns"@
    }
}

pub fn format_operation(ns: u64) -> (r: String)
    ensures
        r@ == operation_text(ns),
{
    let n = Double::from_u64(ns);
    if ns == 0 {
        copy("—")
    } else if ns >= 1_000_000_000 {
        cat2(fixed_text(n.over(Double::from_u64(1_000_000_000)), 1).as_str(), "s")
    } else if ns >= 1_000_000 {
        cat2(fixed_text(n.over(Double::from_u64(1_000_000)), 1).as_str(), "ms")
    } else if ns >= 1_000 {
        cat2(fixed_text(n.over(Double::from_u64(1_000)), 0).as_str(), "µs")
    } else {
        cat2(u64_text(ns).as_str(), "ns")
    }
}

/// How much of a whole is used, in percent; of nothing, none.
pub open spec fn percent(part: u64, all: u64) -> Double {
    if all > 0 {
        product(quotient(whole(part as nat), whole(all as nat)), whole(100))
    } else {
        zero()
    }
}

pub fn share_pct(part: u64, all: u64) -> (r: Double)
    ensures
        r == percent(part, all),
{
    if all > 0 {
        Double::from_u64(part).over(Double::from_u64(all)).times(Double::from_u64(100))
    } else {
        Double::zero()
    }
}

/// What is not available of a whole; none where more is available than there is.
pub fn used_of(all: u64, available: u64) -> (r: u64)
    ensures
        r == if available < all {
            all - available
        } else {
            0
        },
{
    if available < all {
        all - available
    } else {
        0
    }
}

/// Bytes in GiB with one place.
pub open spec fn gib_text(bytes: u64) -> Seq<char> {
    fixed(quotient(whole(bytes as nat), whole(0x4000_0000)), 1)
}

pub fn format_gib(bytes: u64) -> (r: String)
    ensures
        r@ == gib_text(bytes),
{
    fixed_text(Double::from_u64(bytes).over(Double::from_u64(0x4000_0000)), 1)
}

/// A time since the start, in its two largest units.
pub open spec fn uptime_text(s: u64) -> Seq<char> {
    let days = s / 86_400;
    let hours = s % 86_400 / 3_600;
    let mins = s % 3_600 / 60;
    if days > 0 {
        decimal(days as nat) + "d "@ + decimal(hours as nat) + "h"@
    } else if hours > 0 {
        decimal(hours as nat) + "h "@ + decimal(mins as nat) + "m"@
    } else {
        decimal(mins as nat) + "m"@
    }
}

/// The whole seconds that `/proc/uptime` starts with.
pub open spec fn uptime_seconds(content: Seq<char>) -> u64 {
    let f = words_of(content);
    if f.len() > 0 {
        match parsed(f[0]) {
            Some(x) => truncated(x),
            None => truncated(zero()),
        }
    } else {
        truncated(zero())
    }
}

pub fn format_uptime(content: &str) -> (r: String)
    ensures
        r@ == uptime_text(uptime_seconds(content@)),
{
    let f = words(content);
    let x = if count(&f) > 0 {
        match parse_double(item(&f, 0)) {
            Some(x) => x,
            None => Double::zero(),
        }
    } else {
        Double::zero()
    };
    let s = truncate(x);
    let days = s / 86_400;
    let hours = s % 86_400 / 3_600;
    let mins = s % 3_600 / 60;
    if days > 0 {
        cat4(u64_text(days).as_str(), "d ", u64_text(hours).as_str(), "h")
    } else if hours > 0 {
        cat4(u64_text(hours).as_str(), "h ", u64_text(mins).as_str(), "m")
    } else {
        cat2(u64_text(mins).as_str(), "m")
    }
}

pub open spec fn word_or_question(f: Seq<Seq<char>>, i: int) -> Seq<char> {
    if i < f.len() {
        f[i]
    } else {
        "?"@
    }
}

fn get_word(f: &Vec<String>, i: usize) -> (r: String)
    ensures
        r@ == word_or_question(views(f@), i as int),
{
    if i < count(f) {
        copy(item(f, i))
    } else {
        copy("?")
    }
}

/// The three averages of `/proc/loadavg`.
pub fn loadavg_parts(content: &str) -> (r: (String, String, String))
    ensures
        ({
            let f = words_of(content@);
            &&& r.0@ == word_or_question(f, 0)
            &&& r.1@ == word_or_question(f, 1)
            &&& r.2@ == word_or_question(f, 2)
        }),
{
    let f = words(content);
    (get_word(&f, 0), get_word(&f, 1), get_word(&f, 2))
}

// --------------------------------------------------------------- gauge, charts

/// How many cells of a bar are filled.
pub open spec fn filled_cells(pct: Double, width: u16) -> u16 {
    let n = truncated(
        product(quotient(clamped(pct, zero(), whole(100)), whole(100)), whole(width as nat)),
    );
    if n > u16::MAX {
        u16::MAX
    } else {
        n as u16
    }
}

pub fn gauge_cells(pct: Double, width: u16) -> (r: u16)
    ensures
        r == filled_cells(pct, width),
{
    let hundred = Double::from_u64(100);
    let n = truncate(
        clamp(pct, Double::zero(), hundred).over(hundred).times(
            Double::from_u64(width as u64),
        ),
    );
    if n > 65_535 {
        65_535
    } else {
        n as u16
    }
}

/// What a gauge says.
pub open spec fn gauge_text(pct: Double) -> Seq<char> {
    fixed(clamped(pct, zero(), whole(100)), 0)
}

pub fn gauge_label(pct: Double) -> (r: String)
    ensures
        r@ == gauge_text(pct),
{
    fixed_text(clamp(pct, Double::zero(), Double::from_u64(100)), 0)
}

pub open spec fn maximum(data: Seq<Double>) -> Double
    decreases data.len(),
{
    if data.len() == 0 {
        zero()
    } else {
        larger(maximum(data.drop_last()), data.last())
    }
}

/// The top of a chart: its largest value, and no less than one.
pub fn chart_top(data: &Vec<Double>) -> (r: Double)
    ensures
        r == larger(maximum(data@), whole(1)),
{
    let mut top = Double::zero();
    let mut i: usize = 0;
    proof {
        assert(data@.take(0) =~= Seq::<Double>::empty());
    }
    while i < data.len()
        invariant
            i <= data@.len(),
            top == maximum(data@.take(i as int)),
        decreases data@.len() - i,
    {
        proof {
            assert(data@.take(i + 1).drop_last() =~= data@.take(i as int));
            assert(data@.take(i + 1).last() == data@[i as int]);
        }
        top = top.max(data[i]);
        i = i + 1;
    }
    proof {
        assert(data@.take(i as int) =~= data@);
    }
    top.max(Double::from_u64(1))
}

/// The first value that a chart of a width shows: two fit in a cell.
pub fn chart_start(len: usize, width: u16) -> (r: usize)
    ensures
        r == (if len > 2 * width {
            len - 2 * width
        } else {
            0
        }),
{
    let room: usize = 2 * (width as usize);
    len.saturating_sub(room)
}

pub open spec fn last_or_zero(data: Seq<Double>) -> Double {
    if data.len() > 0 {
        data.last()
    } else {
        zero()
    }
}

pub fn newest(data: &Vec<Double>) -> (r: Double)
    ensures
        r == last_or_zero(data@),
{
    if data.len() > 0 {
        data[data.len() - 1]
    } else {
        Double::zero()
    }
}

/// The title of a chart of throughput.
pub fn throughput_title(rate: Double, iops: Double) -> (r: String)
    ensures
        r@ == rate_text(rate) + "/s  "@ + fixed(iops, 0) + " io/s"@,
{
    cat4(format_bytes(rate).as_str(), "/s  ", fixed_text(iops, 0).as_str(), " io/s")
}

/// The title of a chart of latency.
pub fn latency_title(us: Double) -> (r: String)
    ensures
        r@ == "lat "@ + fixed(us, 0) + " µs"@,
{
    cat3("lat ", fixed_text(us, 0).as_str(), " µs")
}

} // verus!
