//! Colours, and what they say.

use crate::double::{
    difference, law_every_quotient_rounds, one, product, quotient, sum, whole, zero, Double,
};
use crate::numeral::{truncate, truncated};
use vstd::prelude::*;

verus! {

#[derive(Debug, Clone, Copy, PartialEq, Eq, Structural)]
pub struct Rgb {
    pub r: u8,
    pub g: u8,
    pub b: u8,
}

/// The colours of the interface by what they are for.
#[derive(Debug, Clone, Copy, PartialEq, Eq, Structural)]
pub enum Tone {
    /// The background, slightly blue.
    Background,
    /// Primary text.
    Text,
    /// Inactive text, bright enough to be read on both row colours.
    Dim,
    /// Selected items.
    Accent,
    BorderFocused,
    BorderDim,
    Read,
    /// The area under a chart of reads.
    ReadDim,
    Write,
    WriteDim,
    Green,
    Yellow,
    Red,
    Orange,
    /// Totals.
    Cyan,
    /// The background of every other row.
    RowAlternate,
    HeaderBackground,
    KeyBackground,
}

pub open spec fn rgb(r: u8, g: u8, b: u8) -> Rgb {
    Rgb { r, g, b }
}

pub open spec fn colour_of(tone: Tone) -> Rgb {
    match tone {
        Tone::Background => rgb(20, 20, 30),
        Tone::Text => rgb(200, 200, 210),
        Tone::Dim => rgb(140, 140, 160),
        Tone::Accent => rgb(100, 220, 240),
        Tone::BorderFocused => rgb(90, 180, 200),
        Tone::BorderDim => rgb(55, 55, 75),
        Tone::Read => rgb(240, 190, 60),
        Tone::ReadDim => rgb(100, 80, 25),
        Tone::Write => rgb(80, 140, 240),
        Tone::WriteDim => rgb(30, 55, 100),
        Tone::Green => rgb(80, 220, 120),
        Tone::Yellow => rgb(240, 200, 60),
        Tone::Red => rgb(240, 70, 70),
        Tone::Orange => rgb(240, 150, 50),
        Tone::Cyan => rgb(80, 200, 220),
        Tone::RowAlternate => rgb(35, 35, 50),
        Tone::HeaderBackground => rgb(30, 35, 50),
        Tone::KeyBackground => rgb(50, 55, 75),
    }
}

fn mix(r: u8, g: u8, b: u8) -> (c: Rgb)
    ensures
        c == rgb(r, g, b),
{
    Rgb { r, g, b }
}

impl Tone {
    pub fn colour(self) -> (c: Rgb)
        ensures
            c == colour_of(self),
    {
        match self {
            Tone::Background => mix(20, 20, 30),
            Tone::Text => mix(200, 200, 210),
            Tone::Dim => mix(140, 140, 160),
            Tone::Accent => mix(100, 220, 240),
            Tone::BorderFocused => mix(90, 180, 200),
            Tone::BorderDim => mix(55, 55, 75),
            Tone::Read => mix(240, 190, 60),
            Tone::ReadDim => mix(100, 80, 25),
            Tone::Write => mix(80, 140, 240),
            Tone::WriteDim => mix(30, 55, 100),
            Tone::Green => mix(80, 220, 120),
            Tone::Yellow => mix(240, 200, 60),
            Tone::Red => mix(240, 70, 70),
            Tone::Orange => mix(240, 150, 50),
            Tone::Cyan => mix(80, 200, 220),
            Tone::RowAlternate => mix(35, 35, 50),
            Tone::HeaderBackground => mix(30, 35, 50),
            Tone::KeyBackground => mix(50, 55, 75),
        }
    }
}

/// The colour of a latency: green below a millisecond, red from a tenth of a
/// second on.
pub open spec fn latency_tone(ns: u64) -> Tone {
    if ns < 1_000_000 {
        Tone::Green
    } else if ns < 10_000_000 {
        Tone::Yellow
    } else if ns < 100_000_000 {
        Tone::Orange
    } else {
        Tone::Red
    }
}

pub fn latency_color(ns: u64) -> (r: Tone)
    ensures
        r == latency_tone(ns),
{
    if ns < 1_000_000 {
        Tone::Green
    } else if ns < 10_000_000 {
        Tone::Yellow
    } else if ns < 100_000_000 {
        Tone::Orange
    } else {
        Tone::Red
    }
}

// ------------------------------------------------------------------- gradient

/// The stops of the gradient of gauges, a quarter apart: green to red.
pub open spec fn stop(i: int) -> Rgb {
    if i == 0 {
        rgb(40, 180, 100)
    } else if i == 1 {
        rgb(80, 220, 120)
    } else if i == 2 {
        rgb(220, 210, 60)
    } else if i == 3 {
        rgb(240, 150, 50)
    } else {
        rgb(240, 70, 70)
    }
}

pub open spec fn place_of(i: int) -> Double {
    quotient(whole(i as nat), whole(4))
}

/// The number, or the bound that it lies beyond.
pub open spec fn clamped(x: Double, low: Double, high: Double) -> Double {
    if x.less(low) {
        low
    } else if high.less(x) {
        high
    } else {
        x
    }
}

pub open spec fn between(t: Double, i: int) -> bool {
    place_of(i).at_most(t) && t.at_most(place_of(i + 1))
}

/// The stops around a number between zero and one: of what is no number, the
/// outermost.
pub open spec fn stops_around(t: Double) -> (int, int) {
    if between(t, 0) {
        (0, 1)
    } else if between(t, 1) {
        (1, 2)
    } else if between(t, 2) {
        (2, 3)
    } else if between(t, 3) {
        (3, 4)
    } else {
        (0, 4)
    }
}

/// A component part of the way from one to another.
pub open spec fn blended(a: u8, b: u8, t: Double) -> u8 {
    let n = truncated(
        sum(whole(a as nat), product(difference(whole(b as nat), whole(a as nat)), t)),
    );
    if n > 255 {
        255
    } else {
        n as u8
    }
}

pub open spec fn blended_colour(a: Rgb, b: Rgb, t: Double) -> Rgb {
    rgb(blended(a.r, b.r, t), blended(a.g, b.g, t), blended(a.b, b.b, t))
}

pub open spec fn gradient(pct: Double) -> Rgb {
    gradient_at(clamped(pct, zero(), whole(1)))
}

pub open spec fn gradient_at(t: Double) -> Rgb {
    let (low, high) = stops_around(t);
    let range = difference(place_of(high), place_of(low));
    let part = if zero().less(range) {
        quotient(difference(t, place_of(low)), range)
    } else {
        zero()
    };
    blended_colour(stop(low), stop(high), part)
}

fn find_stop(i: u8) -> (r: Rgb)
    ensures
        r == stop(i as int),
{
    if i == 0 {
        mix(40, 180, 100)
    } else if i == 1 {
        mix(80, 220, 120)
    } else if i == 2 {
        mix(220, 210, 60)
    } else if i == 3 {
        mix(240, 150, 50)
    } else {
        mix(240, 70, 70)
    }
}

fn find_place(i: u8) -> (r: Double)
    ensures
        r == place_of(i as int),
{
    Double::from_u64(i as u64).over(Double::from_u64(4))
}

pub fn clamp(x: Double, low: Double, high: Double) -> (r: Double)
    ensures
        r == clamped(x, low, high),
{
    if x.is_less(low) {
        low
    } else if high.is_less(x) {
        high
    } else {
        x
    }
}

fn is_between(t: Double, i: u8) -> (r: bool)
    requires
        i < 4,
    ensures
        r == between(t, i as int),
{
    find_place(i).is_at_most(t) && t.is_at_most(find_place(i + 1))
}

fn find_stops(t: Double) -> (r: (u8, u8))
    ensures
        (r.0 as int, r.1 as int) == stops_around(t),
{
    if is_between(t, 0) {
        (0, 1)
    } else if is_between(t, 1) {
        (1, 2)
    } else if is_between(t, 2) {
        (2, 3)
    } else if is_between(t, 3) {
        (3, 4)
    } else {
        (0, 4)
    }
}

fn blend(a: u8, b: u8, t: Double) -> (r: u8)
    ensures
        r == blended(a, b, t),
{
    let from = Double::from_u64(a as u64);
    let n = truncate(from.plus(Double::from_u64(b as u64).minus(from).times(t)));
    if n > 255 {
        255
    } else {
        n as u8
    }
}

/// Part of the way from one colour to another.
pub fn lerp_color(a: Rgb, b: Rgb, t: Double) -> (r: Rgb)
    ensures
        r == blended_colour(a, b, t),
{
    Rgb { r: blend(a.r, b.r, t), g: blend(a.g, b.g, t), b: blend(a.b, b.b, t) }
}

/// The colour of a share between zero and one.
pub fn gradient_color(pct: Double) -> (r: Rgb)
    ensures
        r == gradient(pct),
{
    let t = clamp(pct, Double::zero(), Double::from_u64(1));
    let (low, high) = find_stops(t);
    let from = find_place(low);
    let range = find_place(high).minus(from);
    let part = if Double::zero().is_less(range) {
        t.minus(from).over(range)
    } else {
        Double::zero()
    };
    lerp_color(find_stop(low), find_stop(high), part)
}

/// Beyond its ends the gradient does not change.
pub proof fn law_the_gradient_ends(pct: Double)
    ensures
        pct.less(zero()) ==> gradient(pct) == gradient(zero()),
        whole(1).less(pct) ==> gradient(pct) == gradient(whole(1)),
{
    law_every_quotient_rounds(1 * one(), 1);
    assert(!whole(1).less(zero()));
    assert(clamped(zero(), zero(), whole(1)) == zero());
    assert(clamped(whole(1), zero(), whole(1)) == whole(1));
}

/// A share is coloured between the two stops around it, a quarter apart, from green
/// to red.
pub proof fn law_a_share_lies_between_its_stops(t: Double)
    ensures
        ({
            let (low, high) = stops_around(t);
            &&& 0 <= low < high <= 4
            &&& high != low + 1 ==> low == 0 && high == 4
            &&& high == low + 1 ==> quotient(whole(low as nat), whole(4)).at_most(t) && t.at_most(
                quotient(whole(high as nat), whole(4)),
            )
            &&& high != low + 1 ==> forall|i: int|
                0 <= i < 4 ==> !(#[trigger] place_of(i)).at_most(t) || !t.at_most(place_of(i + 1))
        }),
        stop(0) == rgb(40, 180, 100),
        stop(1) == rgb(80, 220, 120),
        stop(2) == rgb(220, 210, 60),
        stop(3) == rgb(240, 150, 50),
        stop(4) == rgb(240, 70, 70),
{
    let (low, high) = stops_around(t);
    if high != low + 1 {
        assert forall|i: int| 0 <= i < 4 implies !(#[trigger] place_of(i)).at_most(t) || !t.at_most(
            place_of(i + 1),
        ) by {
            assert(!between(t, i));
        }
    }
}

} // verus!
