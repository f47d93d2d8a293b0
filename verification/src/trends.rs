//! How latency and headroom develop over time, within bounded histories.

use crate::analysis::{find_device, first_named};
use crate::diagnostics::{truth, truth_text};
use crate::double::{product, quotient, signed, sum, whole, zero, Double};
use crate::numeral::{fixed, fixed_text, seconds, to_seconds};
use crate::order::{arranged, precedes_text, sort, text_before, Rule};
use crate::peers::{PeerSample, PeerSampleView};
use crate::strmap::{find, StrMap};
use crate::sysfs::{DeviceInfoView, Duration, FsSnapshot, FsSnapshotView, Instant};
use crate::targets::{work_of, TargetReport, TargetReportView};
use crate::text::{
    bracketed, cat11, cat3, cat4, cat5, cat7, cat8, copy, count, debug_text, decimal, holds,
    in_brackets, item, lemma_views_push, opt_number, opt_number_text, quoted, same, u64_text,
    usize_text, views, wide_text,
};
use crate::window::{capped_sum, since, time_since};
use vstd::prelude::*;

verus! {

/// How long an outlier must last.
pub const PEER_AFTER: Duration = 30_000_000_000;

pub const PEER_MIN_SAMPLES: usize = 3;

pub const BASELINE_WINDOW: Duration = 300_000_000_000;

pub const HEADROOM_WINDOW: Duration = 600_000_000_000;

pub const HEADROOM_MIN: Duration = 120_000_000_000;

/// How often allocator tables are read.
pub const ALLOC_INTERVAL: Duration = 10_000_000_000;

pub const MIN_LOSS_BYTES: u64 = 67_108_864;

/// The sum of numbers from left to right; of none, the negative zero.
pub open spec fn total_of(values: Seq<Double>) -> Double
    decreases values.len(),
{
    if values.len() == 0 {
        signed(true, 0)
    } else {
        sum(total_of(values.drop_last()), values.last())
    }
}

// --------------------------------------------------------------------- latency

/// Latency outside of outliers: milliseconds in all, and requests.
#[derive(Debug, Clone, Copy)]
pub struct BaselinePoint {
    pub start: Instant,
    pub end: Instant,
    pub latency_ms: Double,
    pub ops: u64,
}

/// Since when a device is an outlier, and what it did before.
#[derive(Debug)]
pub struct LatencyHistory {
    pub signature: String,
    pub last: Option<Instant>,
    pub since: Option<Instant>,
    pub samples: usize,
    pub baseline: Vec<BaselinePoint>,
}

#[verifier::ext_equal]
pub struct LatencyHistoryView {
    pub signature: Seq<char>,
    pub last: Option<Instant>,
    pub since: Option<Instant>,
    pub samples: usize,
    pub baseline: Seq<BaselinePoint>,
}

impl View for LatencyHistory {
    type V = LatencyHistoryView;

    open spec fn view(&self) -> LatencyHistoryView {
        LatencyHistoryView {
            signature: self.signature@,
            last: self.last,
            since: self.since,
            samples: self.samples,
            baseline: self.baseline@,
        }
    }
}

impl LatencyHistoryView {
    pub open spec fn blank(signature: Seq<char>) -> LatencyHistoryView {
        LatencyHistoryView {
            signature,
            last: None,
            since: None,
            samples: 0,
            baseline: Seq::empty(),
        }
    }
}

impl LatencyHistory {
    fn starting(signature: &str) -> (r: LatencyHistory)
        ensures
            r@ == LatencyHistoryView::blank(signature@),
    {
        let r = LatencyHistory {
            signature: copy(signature),
            last: None,
            since: None,
            samples: 0,
            baseline: Vec::new(),
        };
        assert(r@ =~= LatencyHistoryView::blank(signature@));
        r
    }
}

impl Default for LatencyHistory {
    fn default() -> (r: LatencyHistory)
        ensures
            r@ == LatencyHistoryView::blank(""@),
    {
        LatencyHistory::starting("")
    }
}

/// What a lasting outlier shows.
#[derive(Debug, Clone, Copy)]
pub struct LatencyEvidence {
    pub seconds: Double,
    pub samples: usize,
    pub baseline_ms: Option<Double>,
}

/// The points that are not too old.
pub open spec fn recent_points(points: Seq<BaselinePoint>, at: Instant) -> Seq<BaselinePoint>
    decreases points.len(),
{
    if points.len() > 0 && since(at, points[0].start) > BASELINE_WINDOW {
        recent_points(points.skip(1), at)
    } else {
        points
    }
}

pub open spec fn request_counts(points: Seq<BaselinePoint>) -> Seq<Double> {
    Seq::new(points.len(), |i: int| whole(points[i].ops as nat))
}

pub open spec fn latencies(points: Seq<BaselinePoint>) -> Seq<Double> {
    Seq::new(points.len(), |i: int| points[i].latency_ms)
}

/// The mean latency per request, where the points cover enough time.
pub open spec fn baseline_of(points: Seq<BaselinePoint>) -> Option<Double> {
    if points.len() >= 3 && since(points.last().end, points[0].start) >= PEER_AFTER {
        let ops = total_of(request_counts(points));
        if zero().less(ops) {
            Some(quotient(total_of(latencies(points)), ops))
        } else {
            None
        }
    } else {
        None
    }
}

/// The points with one sample more: it joins the last point for ten seconds.
pub open spec fn with_sample(points: Seq<BaselinePoint>, s: PeerSampleView, at: Instant) -> Seq<
    BaselinePoint,
> {
    let ms = product(s.await_ms, whole(s.completed as nat));
    let n = points.len();
    if n > 0 && since(at, points.last().start) < ALLOC_INTERVAL {
        let last = points.last();
        points.update(
            n - 1,
            BaselinePoint {
                start: last.start,
                end: at,
                ops: capped_sum(last.ops, s.completed),
                latency_ms: sum(last.latency_ms, ms),
            },
        )
    } else {
        points.push(BaselinePoint { start: at, end: at, ops: s.completed, latency_ms: ms })
    }
}

/// Whether a sample continues the history.
pub open spec fn carries_on(h: LatencyHistoryView, signature: Seq<char>, at: Instant, gap: Duration) -> bool {
    h.signature == signature && match h.last {
        Some(t) => t < at && at - t <= gap,
        None => true,
    }
}

/// The history after one sample, and what it then shows. No sample, another
/// group or a gap starts it anew; an outlier shows nothing before it lasted.
pub open spec fn latency_observed(
    h: LatencyHistoryView,
    signature: Seq<char>,
    sample: Option<PeerSampleView>,
    at: Instant,
    gap: Duration,
) -> (LatencyHistoryView, Option<LatencyEvidence>) {
    match sample {
        None => (LatencyHistoryView::blank(""@), None),
        Some(s) => {
            let own = if carries_on(h, signature, at, gap) {
                h
            } else {
                LatencyHistoryView::blank(signature)
            };
            let points = recent_points(own.baseline, at);
            if s.outlier {
                let from = match own.since {
                    Some(t) => t,
                    None => at,
                };
                let samples = if own.samples < usize::MAX {
                    (own.samples + 1) as usize
                } else {
                    own.samples
                };
                let next = LatencyHistoryView {
                    signature: own.signature,
                    last: Some(at),
                    since: Some(from),
                    samples,
                    baseline: points,
                };
                if since(at, from) < PEER_AFTER || samples < PEER_MIN_SAMPLES {
                    (next, None)
                } else {
                    (
                        next,
                        Some(
                            LatencyEvidence {
                                seconds: seconds(since(at, from)),
                                samples,
                                baseline_ms: baseline_of(points),
                            },
                        ),
                    )
                }
            } else {
                (
                    LatencyHistoryView {
                        signature: own.signature,
                        last: Some(at),
                        since: None,
                        samples: 0,
                        baseline: with_sample(points, s, at),
                    },
                    None,
                )
            }
        },
    }
}

fn find_baseline(points: &Vec<BaselinePoint>) -> (r: Option<Double>)
    ensures
        r == baseline_of(points@),
{
    let n = points.len();
    if n < 3 || time_since(points[n - 1].end, points[0].start) < PEER_AFTER {
        return None;
    }
    let ghost counts = request_counts(points@);
    let ghost times = latencies(points@);
    let mut ops = Double { bits: crate::double::SIGN };
    let mut ms = Double { bits: crate::double::SIGN };
    let mut i: usize = 0;
    proof {
        assert(counts.take(0) =~= Seq::<Double>::empty());
        assert(times.take(0) =~= Seq::<Double>::empty());
    }
    while i < n
        invariant
            i <= n == points@.len(),
            counts == request_counts(points@),
            times == latencies(points@),
            ops == total_of(counts.take(i as int)),
            ms == total_of(times.take(i as int)),
        decreases n - i,
    {
        proof {
            assert(counts.take(i + 1).drop_last() =~= counts.take(i as int));
            assert(times.take(i + 1).drop_last() =~= times.take(i as int));
        }
        ops = ops.plus(Double::from_u64(points[i].ops));
        ms = ms.plus(points[i].latency_ms);
        i = i + 1;
    }
    proof {
        assert(counts.take(i as int) =~= counts);
        assert(times.take(i as int) =~= times);
    }
    if Double::zero().is_less(ops) {
        Some(ms.over(ops))
    } else {
        None
    }
}

impl LatencyHistory {
    pub fn observe(
        &mut self,
        signature: &str,
        sample: Option<&PeerSample>,
        at: Instant,
        gap: Duration,
    ) -> (r: Option<LatencyEvidence>)
        ensures
            (final(self)@, r) == latency_observed(
                old(self)@,
                signature@,
                match sample {
                    Some(s) => Some(s@),
                    None => None,
                },
                at,
                gap,
            ),
    {
        let sample = match sample {
            Some(s) => s,
            None => {
                *self = LatencyHistory::default();
                return None;
            },
        };
        let on_time = match self.last {
            Some(t) => t < at && at - t <= gap,
            None => true,
        };
        if !(same(self.signature.as_str(), signature) && on_time) {
            *self = LatencyHistory::starting(signature);
        }
        self.last = Some(at);
        let ghost all = self.baseline@;
        let ghost own = self@;
        while self.baseline.len() > 0 && time_since(at, self.baseline[0].start) > BASELINE_WINDOW
            invariant
                recent_points(all, at) == recent_points(self.baseline@, at),
                self.signature@ == own.signature,
                self.last == own.last,
                self.since == own.since,
                self.samples == own.samples,
            decreases self.baseline@.len(),
        {
            let ghost b = self.baseline@;
            self.baseline.remove(0);
            assert(self.baseline@ =~= b.skip(1));
        }
        if sample.outlier {
            let from: Instant = match self.since {
                Some(t) => t,
                None => at,
            };
            self.since = Some(from);
            self.samples = if self.samples < usize::MAX {
                self.samples + 1
            } else {
                self.samples
            };
            if time_since(at, from) < PEER_AFTER || self.samples < PEER_MIN_SAMPLES {
                return None;
            }
            return Some(
                LatencyEvidence {
                    seconds: to_seconds(time_since(at, from)),
                    samples: self.samples,
                    baseline_ms: find_baseline(&self.baseline),
                },
            );
        }
        self.since = None;
        self.samples = 0;
        let ms = sample.await_ms.times(Double::from_u64(sample.completed));
        let n = self.baseline.len();
        if n > 0 && time_since(at, self.baseline[n - 1].start) < ALLOC_INTERVAL {
            let last = self.baseline[n - 1];
            self.baseline.set(
                n - 1,
                BaselinePoint {
                    start: last.start,
                    end: at,
                    ops: last.ops.saturating_add(sample.completed),
                    latency_ms: last.latency_ms.plus(ms),
                },
            );
        } else {
            self.baseline.push(
                BaselinePoint { start: at, end: at, ops: sample.completed, latency_ms: ms },
            );
        }
        None
    }
}

/// A verdict takes thirty seconds and three samples in a row.
pub proof fn law_a_verdict_takes_time_and_samples(
    h: LatencyHistoryView,
    signature: Seq<char>,
    sample: Option<PeerSampleView>,
    at: Instant,
    gap: Duration,
)
    requires
        latency_observed(h, signature, sample, at, gap).1 is Some,
    ensures
        sample is Some && sample->0.outlier,
        latency_observed(h, signature, sample, at, gap).1->0.samples >= 3,
        ({
            let from = latency_observed(h, signature, sample, at, gap).0.since;
            from is Some && since(at, from->0) >= 30_000_000_000
        }),
{
}

/// Another group, a gap or a missing sample starts the count anew.
pub proof fn law_a_break_starts_the_latency_anew(
    h: LatencyHistoryView,
    signature: Seq<char>,
    sample: Option<PeerSampleView>,
    at: Instant,
    gap: Duration,
)
    requires
        sample is None || !carries_on(h, signature, at, gap),
    ensures
        latency_observed(h, signature, sample, at, gap).1 is None,
        latency_observed(h, signature, sample, at, gap).0.samples <= 1,
        latency_observed(h, signature, sample, at, gap).0.baseline.len() <= 1,
{
}

// -------------------------------------------------------------------- headroom

/// The free space of a target at one reading of the allocator.
#[derive(Debug, Clone, Copy)]
pub struct HeadroomPoint {
    pub at: Instant,
    pub free: u64,
    pub pressure: Option<bool>,
    pub gc_running: Option<bool>,
    pub backlog: Option<u64>,
}

#[derive(Debug, Clone, Copy)]
pub struct HeadroomSummary {
    pub direction: &'static str,
    pub seconds: Double,
    pub samples: usize,
    pub first_free: u64,
    pub last_free: u64,
    pub sampled_at: Instant,
    pub pressure_samples: usize,
    pub unknown_pressure: usize,
    pub gc_running_samples: usize,
    pub first_backlog: Option<u64>,
    pub last_backlog: Option<u64>,
    pub alert: bool,
    pub decreases: usize,
    pub increases: usize,
    pub recent_reference: Option<(u64, Duration)>,
}

#[derive(Debug)]
pub struct HeadroomHistory {
    pub signature: String,
    pub points: Vec<HeadroomPoint>,
}

#[verifier::ext_equal]
pub struct HeadroomHistoryView {
    pub signature: Seq<char>,
    pub points: Seq<HeadroomPoint>,
}

impl View for HeadroomHistory {
    type V = HeadroomHistoryView;

    open spec fn view(&self) -> HeadroomHistoryView {
        HeadroomHistoryView { signature: self.signature@, points: self.points@ }
    }
}

impl Default for HeadroomHistory {
    fn default() -> (r: HeadroomHistory)
        ensures
            r@ == (HeadroomHistoryView { signature: ""@, points: Seq::empty() }),
    {
        let r = HeadroomHistory { signature: copy(""), points: Vec::new() };
        assert(r@.points =~= Seq::<HeadroomPoint>::empty());
        r
    }
}

/// The points within the window before a moment.
pub open spec fn windowed(points: Seq<HeadroomPoint>, at: Instant) -> Seq<HeadroomPoint>
    decreases points.len(),
{
    if points.len() > 0 && since(at, points[0].at) > HEADROOM_WINDOW {
        windowed(points.skip(1), at)
    } else {
        points
    }
}

/// The history after one reading. Another policy, a step back or a gap starts
/// it anew. A reading that is not new enough is a cached one and adds nothing.
pub open spec fn headroom_with(
    h: HeadroomHistoryView,
    signature: Seq<char>,
    point: HeadroomPoint,
    gap: Duration,
) -> HeadroomHistoryView {
    let keeps = h.signature == signature && (h.points.len() > 0 ==> h.points.last().at <= point.at
        && since(point.at, h.points.last().at) <= gap);
    let points = if keeps {
        h.points
    } else {
        Seq::empty()
    };
    HeadroomHistoryView {
        signature,
        points: if points.len() == 0 || since(point.at, points.last().at) >= ALLOC_INTERVAL {
            windowed(points, point.at).push(point)
        } else {
            points
        },
    }
}

/// How often the free space fell, or rose, from one point to the next.
pub open spec fn steps(points: Seq<HeadroomPoint>, down: bool) -> nat
    decreases points.len(),
{
    if points.len() < 2 {
        0
    } else {
        let a = points[points.len() - 2].free;
        let b = points.last().free;
        steps(points.drop_last(), down) + if (down && b < a) || (!down && b > a) {
            1nat
        } else {
            0
        }
    }
}

pub open spec fn count_pressure(points: Seq<HeadroomPoint>, pressure: Option<bool>) -> nat
    decreases points.len(),
{
    if points.len() == 0 {
        0
    } else {
        count_pressure(points.drop_last(), pressure) + if points.last().pressure == pressure {
            1nat
        } else {
            0
        }
    }
}

pub open spec fn count_running(points: Seq<HeadroomPoint>) -> nat
    decreases points.len(),
{
    if points.len() == 0 {
        0
    } else {
        count_running(points.drop_last()) + if points.last().gc_running == Some(true) {
            1nat
        } else {
            0
        }
    }
}

/// The latest point at least thirty seconds before a moment.
pub open spec fn reference_point(points: Seq<HeadroomPoint>, at: Instant) -> Option<(u64, Duration)>
    decreases points.len(),
{
    if points.len() == 0 {
        None
    } else if since(at, points.last().at) >= PEER_AFTER {
        Some((points.last().free, since(at, points.last().at)))
    } else {
        reference_point(points.drop_last(), at)
    }
}

/// Which way the free space went: most of the steps must agree.
pub open spec fn direction_of(points: Seq<HeadroomPoint>) -> Seq<char> {
    let first = points[0];
    let last = points.last();
    let down = steps(points, true);
    let up = steps(points, false);
    if seconds(since(last.at, first.at)).less(seconds(HEADROOM_MIN)) {
        "warming up"@
    } else if last.free == first.free {
        "steady"@
    } else if last.free < first.free && down * 100 >= (down + up) * 70 {
        "falling"@
    } else if last.free > first.free && up * 100 >= (down + up) * 70 {
        "rising"@
    } else {
        "fluctuating"@
    }
}

pub open spec fn loss(first: u64, last: u64) -> u64 {
    if first >= last {
        (first - last) as u64
    } else {
        0
    }
}

pub open spec fn loss_threshold(first: u64) -> u64 {
    if first / 10 > MIN_LOSS_BYTES {
        first / 10
    } else {
        MIN_LOSS_BYTES
    }
}

/// A sustained loss: falling in several steps, still falling lately, by enough,
/// and mostly under pressure. Unknown pressure counts against it.
pub open spec fn alerts(points: Seq<HeadroomPoint>) -> bool {
    let last = points.last();
    let reference = reference_point(points, last.at);
    &&& direction_of(points) == "falling"@
    &&& steps(points, true) >= 3
    &&& reference is Some && last.free < (reference->0).0
    &&& loss(points[0].free, last.free) >= loss_threshold(points[0].free)
    &&& count_pressure(points, Some(true)) * 100 >= points.len() * 80
}

pub open spec fn summarises(s: HeadroomSummary, points: Seq<HeadroomPoint>) -> bool {
    let first = points[0];
    let last = points.last();
    &&& s.direction@ == direction_of(points)
    &&& s.seconds == seconds(since(last.at, first.at))
    &&& s.samples == points.len()
    &&& s.first_free == first.free && s.last_free == last.free
    &&& s.sampled_at == last.at
    &&& s.pressure_samples == count_pressure(points, Some(true))
    &&& s.unknown_pressure == count_pressure(points, None)
    &&& s.gc_running_samples == count_running(points)
    &&& s.first_backlog == first.backlog && s.last_backlog == last.backlog
    &&& s.alert == alerts(points)
    &&& s.decreases == steps(points, true) && s.increases == steps(points, false)
    &&& s.recent_reference == reference_point(points, last.at)
}

proof fn lemma_counts(points: Seq<HeadroomPoint>, p: Option<bool>)
    ensures
        steps(points, true) + steps(points, false) <= points.len(),
        count_pressure(points, p) <= points.len(),
        count_running(points) <= points.len(),
    decreases points.len(),
{
    if points.len() > 0 {
        lemma_counts(points.drop_last(), p);
    }
}

struct Tally {
    down: usize,
    up: usize,
    pressed: usize,
    unknown: usize,
    running: usize,
}

fn tally(points: &Vec<HeadroomPoint>) -> (r: Tally)
    ensures
        r.down == steps(points@, true),
        r.up == steps(points@, false),
        r.pressed == count_pressure(points@, Some(true)),
        r.unknown == count_pressure(points@, None),
        r.running == count_running(points@),
        r.down + r.up <= points@.len(),
{
    let ghost all = points@;
    let n = points.len();
    let mut t = Tally { down: 0, up: 0, pressed: 0, unknown: 0, running: 0 };
    let mut i: usize = 0;
    proof {
        assert(all.take(0) =~= Seq::<HeadroomPoint>::empty());
    }
    while i < n
        invariant
            i <= n == points@.len(),
            all == points@,
            t.down == steps(all.take(i as int), true),
            t.up == steps(all.take(i as int), false),
            t.pressed == count_pressure(all.take(i as int), Some(true)),
            t.unknown == count_pressure(all.take(i as int), None),
            t.running == count_running(all.take(i as int)),
        decreases n - i,
    {
        let p = points[i];
        proof {
            let next = all.take(i + 1);
            assert(next.drop_last() =~= all.take(i as int));
            assert(next.last() == p);
            if i > 0 {
                assert(next[next.len() - 2] == all[i - 1]);
            }
            lemma_counts(next, Some(true));
            lemma_counts(next, None);
        }
        if i > 0 {
            let before = points[i - 1];
            if p.free < before.free {
                t.down = t.down + 1;
            } else if p.free > before.free {
                t.up = t.up + 1;
            }
        }
        match p.pressure {
            Some(b) => {
                if b {
                    t.pressed = t.pressed + 1;
                }
            },
            None => {
                t.unknown = t.unknown + 1;
            },
        }
        if let Some(b) = p.gc_running {
            if b {
                t.running = t.running + 1;
            }
        }
        i = i + 1;
    }
    proof {
        assert(all.take(i as int) =~= all);
        lemma_counts(all, None);
    }
    t
}

fn find_reference(points: &Vec<HeadroomPoint>, at: Instant) -> (r: Option<(u64, Duration)>)
    ensures
        r == reference_point(points@, at),
{
    let ghost all = points@;
    let mut n: usize = points.len();
    proof {
        assert(all.take(n as int) =~= all);
    }
    while n > 0
        invariant
            n <= points@.len(),
            all == points@,
            reference_point(all, at) == reference_point(all.take(n as int), at),
        decreases n,
    {
        proof {
            assert(all.take(n as int).drop_last() =~= all.take(n - 1));
        }
        let age = time_since(at, points[n - 1].at);
        if age >= PEER_AFTER {
            return Some((points[n - 1].free, age));
        }
        n = n - 1;
    }
    None
}

fn find_direction(first: &HeadroomPoint, last: &HeadroomPoint, down: usize, up: usize) -> (r: (
    &'static str,
    bool,
))
    ensures
        r.0@ == (if seconds(since(last.at, first.at)).less(seconds(HEADROOM_MIN)) {
            "warming up"@
        } else if last.free == first.free {
            "steady"@
        } else if last.free < first.free && down * 100 >= (down + up) * 70 {
            "falling"@
        } else if last.free > first.free && up * 100 >= (down + up) * 70 {
            "rising"@
        } else {
            "fluctuating"@
        }),
        r.1 == (r.0@ == "falling"@),
{
    proof {
        reveal_strlit("warming up");
        reveal_strlit("steady");
        reveal_strlit("falling");
        reveal_strlit("rising");
        reveal_strlit("fluctuating");
        assert("warming up"@.len() != "falling"@.len());
        assert("steady"@.len() != "falling"@.len());
        assert("rising"@.len() != "falling"@.len());
        assert("fluctuating"@.len() != "falling"@.len());
    }
    let d: u128 = down as u128;
    let u: u128 = up as u128;
    if to_seconds(time_since(last.at, first.at)).is_less(to_seconds(HEADROOM_MIN)) {
        ("warming up", false)
    } else if last.free == first.free {
        ("steady", false)
    } else if last.free < first.free && d * 100 >= (d + u) * 70 {
        ("falling", true)
    } else if last.free > first.free && u * 100 >= (d + u) * 70 {
        ("rising", false)
    } else {
        ("fluctuating", false)
    }
}

fn summarise(points: &Vec<HeadroomPoint>) -> (r: HeadroomSummary)
    requires
        points@.len() > 0,
    ensures
        summarises(r, points@),
{
    let n = points.len();
    let first = points[0];
    let last = points[n - 1];
    let t = tally(points);
    let (direction, falling) = find_direction(&first, &last, t.down, t.up);
    let recent_reference = find_reference(points, last.at);
    let threshold: u64 = if first.free / 10 > MIN_LOSS_BYTES {
        first.free / 10
    } else {
        MIN_LOSS_BYTES
    };
    let still_falling = match recent_reference {
        Some((free, _)) => last.free < free,
        None => false,
    };
    let alert = falling && t.down >= 3 && still_falling && first.free.saturating_sub(last.free)
        >= threshold && (t.pressed as u128) * 100 >= (n as u128) * 80;
    HeadroomSummary {
        direction,
        seconds: to_seconds(time_since(last.at, first.at)),
        samples: n,
        first_free: first.free,
        last_free: last.free,
        sampled_at: last.at,
        pressure_samples: t.pressed,
        unknown_pressure: t.unknown,
        gc_running_samples: t.running,
        first_backlog: first.backlog,
        last_backlog: last.backlog,
        alert,
        decreases: t.down,
        increases: t.up,
        recent_reference,
    }
}

impl HeadroomHistory {
    pub fn observe(&mut self, signature: &str, point: HeadroomPoint, gap: Duration) -> (r: HeadroomSummary)
        ensures
            final(self)@ == headroom_with(old(self)@, signature@, point, gap),
            summarises(r, final(self)@.points),
    {
        let n = self.points.len();
        let keeps = same(self.signature.as_str(), signature) && (n == 0 || (self.points[n - 1].at
            <= point.at && time_since(point.at, self.points[n - 1].at) <= gap));
        if !keeps {
            self.signature = copy(signature);
            self.points = Vec::new();
        }
        let m = self.points.len();
        if m == 0 || time_since(point.at, self.points[m - 1].at) >= ALLOC_INTERVAL {
            let ghost all = self.points@;
            while self.points.len() > 0 && time_since(point.at, self.points[0].at)
                > HEADROOM_WINDOW
                invariant
                    self.signature@ == signature@,
                    windowed(all, point.at) == windowed(self.points@, point.at),
                decreases self.points@.len(),
            {
                let ghost b = self.points@;
                self.points.remove(0);
                assert(self.points@ =~= b.skip(1));
            }
            self.points.push(point);
        }
        summarise(&self.points)
    }
}

impl HeadroomHistoryView {
    /// Whether readings stand at least ten seconds apart, all within the
    /// window.
    pub open spec fn valid(self) -> bool {
        let p = self.points;
        &&& forall|i: int, j: int|
            0 <= i < j < p.len() ==> (#[trigger] p[j]).at >= (#[trigger] p[i]).at + (j - i)
                * ALLOC_INTERVAL
        &&& p.len() > 0 ==> p.last().at - p[0].at <= HEADROOM_WINDOW
    }
}

proof fn lemma_windowed(p: Seq<HeadroomPoint>, at: Instant)
    ensures
        windowed(p, at).len() <= p.len(),
        windowed(p, at) == p.skip(p.len() - windowed(p, at).len()),
        windowed(p, at).len() > 0 ==> since(at, windowed(p, at)[0].at) <= HEADROOM_WINDOW,
    decreases p.len(),
{
    if p.len() > 0 && since(at, p[0].at) > HEADROOM_WINDOW {
        lemma_windowed(p.skip(1), at);
        let w = windowed(p, at);
        assert(w =~= p.skip(p.len() - w.len()));
    } else {
        assert(p.skip(0) =~= p);
    }
}

/// However often it is fed, a history keeps at most 61 readings of ten minutes.
pub proof fn law_headroom_history_is_bounded(
    h: HeadroomHistoryView,
    signature: Seq<char>,
    point: HeadroomPoint,
    gap: Duration,
)
    requires
        h.valid(),
    ensures
        headroom_with(h, signature, point, gap).valid(),
        0 < headroom_with(h, signature, point, gap).points.len() <= 61,
{
    let r = headroom_with(h, signature, point, gap);
    let keeps = h.signature == signature && (h.points.len() > 0 ==> h.points.last().at <= point.at
        && since(point.at, h.points.last().at) <= gap);
    let points = if keeps {
        h.points
    } else {
        Seq::empty()
    };
    if points.len() == 0 || since(point.at, points.last().at) >= ALLOC_INTERVAL {
        lemma_windowed(points, point.at);
        let w = windowed(points, point.at);
        let gone = points.len() - w.len();
        let p = r.points;
        assert forall|i: int, j: int| 0 <= i < j < p.len() implies (#[trigger] p[j]).at >= (
        #[trigger] p[i]).at + (j - i) * ALLOC_INTERVAL by {
            assert(w[i] == points[i + gone]);
            if j < w.len() {
                assert(w[j] == points[j + gone]);
            } else {
                let k = points.len() - 1;
                assert(points[k].at >= points[i + gone].at + (k - (i + gone)) * ALLOC_INTERVAL);
                assert((j - i) * ALLOC_INTERVAL == (k - (i + gone)) * ALLOC_INTERVAL
                    + ALLOC_INTERVAL) by (nonlinear_arith)
                    requires
                        j - i == k - (i + gone) + 1,
                ;
            }
        }
        if w.len() > 0 {
            assert(p[0] == w[0]);
            assert(w[0] == points[gone]);
            if gone < points.len() - 1 {
                assert(points[points.len() - 1].at >= points[gone].at);
            }
        }
    }
    let p = r.points;
    let n = p.len() - 1;
    if n > 0 {
        assert(p[n].at >= p[0].at + (n - 0) * ALLOC_INTERVAL);
        assert(n <= 60) by (nonlinear_arith)
            requires
                n * ALLOC_INTERVAL <= HEADROOM_WINDOW,
                ALLOC_INTERVAL == 10_000_000_000,
                HEADROOM_WINDOW == 600_000_000_000,
        ;
    }
}

/// A reading that was served from a cache adds nothing.
pub proof fn law_cached_readings_do_not_count(
    h: HeadroomHistoryView,
    point: HeadroomPoint,
    gap: Duration,
)
    requires
        h.points.len() > 0,
        h.points.last().at <= point.at,
        point.at - h.points.last().at <= gap,
        point.at - h.points.last().at < 10_000_000_000,
    ensures
        headroom_with(h, h.signature, point, gap) == h,
{
}

/// A warning needs pressure that is known: none comes of pressure that is
/// absent or unknown throughout.
pub proof fn law_no_warning_without_known_pressure(points: Seq<HeadroomPoint>)
    requires
        points.len() > 0,
        forall|i: int| 0 <= i < points.len() ==> (#[trigger] points[i]).pressure != Some(true),
    ensures
        !alerts(points),
{
    lemma_no_pressure(points);
}

proof fn lemma_no_pressure(points: Seq<HeadroomPoint>)
    requires
        forall|i: int| 0 <= i < points.len() ==> (#[trigger] points[i]).pressure != Some(true),
    ensures
        count_pressure(points, Some(true)) == 0,
    decreases points.len(),
{
    if points.len() > 0 {
        let rest = points.drop_last();
        assert forall|i: int| 0 <= i < rest.len() implies (#[trigger] rest[i]).pressure != Some(
            true,
        ) by {
            assert(rest[i] == points[i]);
        }
        assert(points[points.len() - 1].pressure != Some(true));
        lemma_no_pressure(rest);
    }
}

// ------------------------------------------------------------------ its wording

impl HeadroomSummary {
    pub open spec fn criteria_text() -> Seq<char> {
        "valid unchanged-policy/member history AND coverage >= 120s AND loss >= max(67108864 bytes, first_free/10) AND decreases >= 3 AND 100*decreases >= 70*(decreases+increases) AND latest_free < reference_free at least 30s earlier AND 100*pressure_samples >= 80*samples"@
    }

    pub fn criteria(&self) -> (r: String)
        ensures
            r@ == HeadroomSummary::criteria_text(),
    {
        copy(
            "valid unchanged-policy/member history AND coverage >= 120s AND loss >= max(67108864 bytes, first_free/10) AND decreases >= 3 AND 100*decreases >= 70*(decreases+increases) AND latest_free < reference_free at least 30s earlier AND 100*pressure_samples >= 80*samples",
        )
    }

    pub open spec fn reference_text(self) -> Seq<char> {
        match self.recent_reference {
            Some((free, age)) => "latest_free="@ + decimal(self.last_free as nat)
                + " < reference_free="@ + decimal(free as nat) + " bytes; reference age="@ + fixed(
                seconds(age),
                3,
            ) + "s >= 30s"@,
            None => "recent reference: unknown"@,
        }
    }

    /// What the criteria were compared with.
    pub open spec fn indicator_texts(self) -> Seq<Seq<char>> {
        let both = (self.decreases + self.increases) as nat;
        seq![
            "coverage="@ + fixed(self.seconds, 3) + "s >= 120s; fresh samples="@ + decimal(
                self.samples as nat,
            ),
            "first_free="@ + decimal(self.first_free as nat) + " bytes; latest_free="@ + decimal(
                self.last_free as nat,
            ) + " bytes; loss="@ + decimal(loss(self.first_free, self.last_free) as nat)
                + " bytes >= max(67108864, "@ + decimal(self.first_free as nat) + "/10)="@
                + decimal(loss_threshold(self.first_free) as nat) + " bytes"@,
            "decreases="@ + decimal(self.decreases as nat) + " >= 3; increases="@ + decimal(
                self.increases as nat,
            ) + "; 100*"@ + decimal(self.decreases as nat) + "="@ + decimal(
                (100 * self.decreases) as nat,
            ) + " >= 70*"@ + decimal(both) + "="@ + decimal((70 * both) as nat),
            self.reference_text(),
            "100*pressure_samples="@ + decimal((100 * self.pressure_samples) as nat)
                + " >= 80*samples="@ + decimal((80 * self.samples) as nat)
                + "; unknown pressure samples="@ + decimal(self.unknown_pressure as nat)
                + " (included in denominator)"@,
        ]
    }

    fn coverage_line(&self) -> (r: String)
        ensures
            r@ == self.indicator_texts()[0],
    {
        cat4(
            "coverage=",
            fixed_text(self.seconds, 3).as_str(),
            "s >= 120s; fresh samples=",
            usize_text(self.samples).as_str(),
        )
    }

    fn loss_line(&self) -> (r: String)
        ensures
            r@ == self.indicator_texts()[1],
    {
        let threshold: u64 = if self.first_free / 10 > MIN_LOSS_BYTES {
            self.first_free / 10
        } else {
            MIN_LOSS_BYTES
        };
        cat11(
            "first_free=",
            u64_text(self.first_free).as_str(),
            " bytes; latest_free=",
            u64_text(self.last_free).as_str(),
            " bytes; loss=",
            u64_text(self.first_free.saturating_sub(self.last_free)).as_str(),
            " bytes >= max(67108864, ",
            u64_text(self.first_free).as_str(),
            "/10)=",
            u64_text(threshold).as_str(),
            " bytes",
        )
    }

    fn steps_line(&self) -> (r: String)
        ensures
            r@ == self.indicator_texts()[2],
    {
        let both: u128 = self.decreases as u128 + self.increases as u128;
        let mut r = cat8(
            "decreases=",
            usize_text(self.decreases).as_str(),
            " >= 3; increases=",
            usize_text(self.increases).as_str(),
            "; 100*",
            usize_text(self.decreases).as_str(),
            "=",
            wide_text(self.decreases as u128 * 100).as_str(),
        );
        r.append(" >= 70*");
        r.append(wide_text(both).as_str());
        r.append("=");
        r.append(wide_text(both * 70).as_str());
        r
    }

    fn reference_line(&self) -> (r: String)
        ensures
            r@ == self.indicator_texts()[3],
    {
        match self.recent_reference {
            Some((free, age)) => cat7(
                "latest_free=",
                u64_text(self.last_free).as_str(),
                " < reference_free=",
                u64_text(free).as_str(),
                " bytes; reference age=",
                fixed_text(to_seconds(age), 3).as_str(),
                "s >= 30s",
            ),
            None => copy("recent reference: unknown"),
        }
    }

    fn pressure_line(&self) -> (r: String)
        ensures
            r@ == self.indicator_texts()[4],
    {
        cat7(
            "100*pressure_samples=",
            wide_text(self.pressure_samples as u128 * 100).as_str(),
            " >= 80*samples=",
            wide_text(self.samples as u128 * 80).as_str(),
            "; unknown pressure samples=",
            usize_text(self.unknown_pressure).as_str(),
            " (included in denominator)",
        )
    }

    pub fn indicators(&self) -> (r: Vec<String>)
        ensures
            views(r@) == self.indicator_texts(),
    {
        let mut r: Vec<String> = Vec::new();
        r.push(self.coverage_line());
        r.push(self.loss_line());
        r.push(self.steps_line());
        r.push(self.reference_line());
        r.push(self.pressure_line());
        assert(views(r@) =~= self.indicator_texts());
        r
    }
}

// -------------------------------------------------------- readings of a target

/// A member in the history of a target: its identity, its capacity and whether
/// it takes new data.
pub type MemberMark = (String, Option<u64>, bool);

/// By identity, then unknown capacity first, then by capacity, then those that
/// take no data first.
pub struct ByMark;

impl Rule<MemberMark> for ByMark {
    open spec fn before(
        a: (Seq<char>, Option<u64>, bool),
        b: (Seq<char>, Option<u64>, bool),
    ) -> bool {
        ||| text_before(a.0, b.0)
        ||| a.0 == b.0 && match (a.1, b.1) {
            (Some(x), Some(y)) => x < y || (x == y && !a.2 && b.2),
            (None, Some(_)) => true,
            (Some(_), None) => false,
            (None, None) => !a.2 && b.2,
        }
    }

    fn precedes(a: &MemberMark, b: &MemberMark) -> (r: bool) {
        if precedes_text(a.0.as_str(), b.0.as_str()) {
            return true;
        }
        if !same(a.0.as_str(), b.0.as_str()) {
            return false;
        }
        match (a.1, b.1) {
            (Some(x), Some(y)) => x < y || (x == y && !a.2 && b.2),
            (None, Some(_)) => true,
            (Some(_), None) => false,
            (None, None) => !a.2 && b.2,
        }
    }
}

/// The members of a report as far as each is found, and what is known of the
/// pressure on those that take new data.
pub open spec fn marked(
    devices: Seq<DeviceInfoView>,
    needs_gc: Seq<(Seq<char>, bool)>,
    eligible: Seq<Seq<char>>,
    members: Seq<Seq<char>>,
) -> Option<(Seq<(Seq<char>, Option<u64>, bool)>, Seq<Option<bool>>)>
    decreases members.len(),
{
    if members.len() == 0 {
        Some((Seq::empty(), Seq::empty()))
    } else {
        let name = members.last();
        match (
            marked(devices, needs_gc, eligible, members.drop_last()),
            first_named(devices, name),
        ) {
            (Some((marks, pressures)), Some(d)) => {
                let takes = eligible.contains(name);
                Some(
                    (
                        marks.push((d.key(), d.allocation.capacity_bytes, takes)),
                        if takes {
                            pressures.push(find(needs_gc, name))
                        } else {
                            pressures
                        },
                    ),
                )
            },
            _ => None,
        }
    }
}

pub open spec fn mark_text(m: (Seq<char>, Option<u64>, bool)) -> Seq<char> {
    "("@ + quoted(m.0) + ", "@ + opt_number(m.1) + ", "@ + truth(m.2) + ")"@
}

pub open spec fn mark_texts(marks: Seq<(Seq<char>, Option<u64>, bool)>) -> Seq<Seq<char>> {
    Seq::new(marks.len(), |i: int| mark_text(marks[i]))
}

pub open spec fn policy_texts(options: Seq<(Seq<char>, Seq<char>)>) -> Seq<Seq<char>> {
    Seq::new(
        options.len(),
        |i: int| "("@ + quoted(options[i].0) + ", "@ + quoted(options[i].1) + ")"@,
    )
}

/// Pressure on one member is pressure; none needs every member to be known.
pub open spec fn joint_pressure(pressures: Seq<Option<bool>>) -> Option<bool> {
    if pressures.contains(Some(true)) {
        Some(true)
    } else if forall|i: int|
        0 <= i < pressures.len() ==> #[trigger] pressures[i] == Some(false) {
        Some(false)
    } else {
        None
    }
}

/// The work that is left for the role of a target.
pub open spec fn backlog_of(snap: FsSnapshotView, role: Seq<char>) -> Option<u64> {
    match work_of(snap.reconcile.work, "target"@) {
        Some(w) => if role == "metadata"@ {
            w.metadata_bytes
        } else if role == "background"@ {
            w.data_bytes
        } else {
            None
        },
        None => None,
    }
}

/// A reading of the headroom of a target, and the members and options that it
/// holds under. None where the tables are too old, or anything is missing or
/// does not fit together.
pub open spec fn headroom_reading(
    snap: FsSnapshotView,
    report: TargetReportView,
    now: Instant,
    max_age: Duration,
) -> Option<(Seq<char>, HeadroomPoint)> {
    match (
        snap.allocation_sampled_at,
        report.capacity_bytes,
        report.free_bytes,
        report.eligible_members,
        marked(snap.devices, snap.copygc.needs_gc, report.eligible_devices, report.members),
    ) {
        (Some(at), Some(capacity), Some(free), Some(n), Some((marks, pressures))) => if at <= now
            && now - at <= max_age && capacity > 0 && free <= capacity && n > 0 && n
            == report.eligible_devices.len() && pressures.len() == n {
            Some(
                (
                    bracketed(mark_texts(arranged::<MemberMark, ByMark>(marks))) + ":"@ + bracketed(
                        policy_texts(snap.options),
                    ),
                    HeadroomPoint {
                        at,
                        free,
                        pressure: joint_pressure(pressures),
                        gc_running: snap.copygc.running,
                        backlog: backlog_of(snap, report.role),
                    },
                ),
            )
        } else {
            None
        },
        _ => None,
    }
}

fn mark_members(snap: &FsSnapshot, report: &TargetReport) -> (r: Option<
    (Vec<MemberMark>, Vec<Option<bool>>),
>)
    ensures
        match r {
            Some((marks, pressures)) => marked(
                snap@.devices,
                snap@.copygc.needs_gc,
                report@.eligible_devices,
                report@.members,
            ) == Some((views(marks@), pressures@)),
            None => marked(
                snap@.devices,
                snap@.copygc.needs_gc,
                report@.eligible_devices,
                report@.members,
            ) is None,
        },
{
    broadcast use lemma_views_push;

    let ghost all = report@.members;
    let mut marks: Vec<MemberMark> = Vec::new();
    let mut pressures: Vec<Option<bool>> = Vec::new();
    let mut i: usize = 0;
    proof {
        assert(all.take(0) =~= Seq::<Seq<char>>::empty());
        assert(views(marks@) =~= Seq::<(Seq<char>, Option<u64>, bool)>::empty());
    }
    while i < count(&report.members)
        invariant
            i <= all.len(),
            all == report@.members,
            marked(
                snap@.devices,
                snap@.copygc.needs_gc,
                report@.eligible_devices,
                all.take(i as int),
            ) == Some((views(marks@), pressures@)),
        decreases all.len() - i,
    {
        proof {
            crate::parse::lemma_next_line(all, i as int);
        }
        let name = item(&report.members, i);
        match find_device(&snap.devices, name) {
            Some(d) => {
                let takes = holds(&report.eligible_devices, name);
                let m: MemberMark = (d.identity(), d.allocation.capacity_bytes, takes);
                marks.push(m);
                if takes {
                    pressures.push(
                        match snap.copygc.needs_gc.get(name) {
                            Some(b) => Some(*b),
                            None => None,
                        },
                    );
                }
            },
            None => {
                proof {
                    lemma_marked_stops(
                        snap@.devices,
                        snap@.copygc.needs_gc,
                        report@.eligible_devices,
                        all,
                        i + 1,
                    );
                }
                return None;
            },
        }
        i = i + 1;
    }
    proof {
        assert(all.take(i as int) =~= all);
    }
    Some((marks, pressures))
}

proof fn lemma_marked_stops(
    devices: Seq<DeviceInfoView>,
    needs_gc: Seq<(Seq<char>, bool)>,
    eligible: Seq<Seq<char>>,
    members: Seq<Seq<char>>,
    k: int,
)
    requires
        0 <= k <= members.len(),
        marked(devices, needs_gc, eligible, members.take(k)) is None,
    ensures
        marked(devices, needs_gc, eligible, members) is None,
    decreases members.len() - k,
{
    if k < members.len() {
        crate::parse::lemma_next_line(members, k);
        lemma_marked_stops(devices, needs_gc, eligible, members, k + 1);
    } else {
        assert(members.take(k) =~= members);
    }
}

fn mark_lines(marks: &Vec<MemberMark>) -> (r: Vec<String>)
    ensures
        views(r@) == mark_texts(views(marks@)),
{
    let mut r: Vec<String> = Vec::new();
    let mut i: usize = 0;
    while i < marks.len()
        invariant
            i <= marks@.len(),
            r@.len() == i,
            forall|k: int| 0 <= k < i ==> (#[trigger] r@[k])@ == mark_text(marks@[k]@),
        decreases marks@.len() - i,
    {
        let m = &marks[i];
        r.push(
            cat7(
                "(",
                debug_text(m.0.as_str()).as_str(),
                ", ",
                opt_number_text(m.1).as_str(),
                ", ",
                truth_text(m.2),
                ")",
            ),
        );
        i = i + 1;
    }
    assert(views(r@) =~= mark_texts(views(marks@)));
    r
}

fn policy_lines(options: &StrMap<String>) -> (r: Vec<String>)
    ensures
        views(r@) == policy_texts(options@),
{
    let mut r: Vec<String> = Vec::new();
    let mut i: usize = 0;
    while i < options.len()
        invariant
            i <= options@.len(),
            r@.len() == i,
            forall|k: int|
                0 <= k < i ==> (#[trigger] r@[k])@ == policy_texts(options@)[k],
        decreases options@.len() - i,
    {
        r.push(
            cat5(
                "(",
                debug_text(options.key_at(i)).as_str(),
                ", ",
                debug_text(options.value_at(i).as_str()).as_str(),
                ")",
            ),
        );
        i = i + 1;
    }
    assert(views(r@) =~= policy_texts(options@));
    r
}

fn join_pressure(pressures: &Vec<Option<bool>>) -> (r: Option<bool>)
    ensures
        r == joint_pressure(pressures@),
{
    let mut known = true;
    let mut i: usize = 0;
    while i < pressures.len()
        invariant
            i <= pressures@.len(),
            forall|k: int| 0 <= k < i ==> #[trigger] pressures@[k] != Some(true),
            known <==> forall|k: int| 0 <= k < i ==> #[trigger] pressures@[k] == Some(false),
        decreases pressures@.len() - i,
    {
        match pressures[i] {
            Some(b) => {
                if b {
                    assert(pressures@[i as int] == Some(true));
                    return Some(true);
                }
            },
            None => {
                known = false;
            },
        }
        i = i + 1;
    }
    if known {
        Some(false)
    } else {
        None
    }
}

/// A reading of the headroom of a target with its signature.
pub fn headroom_input(snap: &FsSnapshot, report: &TargetReport, now: Instant, max_age: Duration) -> (r: Option<
    (String, HeadroomPoint),
>)
    ensures
        match r {
            Some((signature, point)) => headroom_reading(snap@, report@, now, max_age) == Some(
                (signature@, point),
            ),
            None => headroom_reading(snap@, report@, now, max_age) is None,
        },
{
    let at: Instant = match snap.allocation_sampled_at {
        Some(at) => at,
        None => {
            return None;
        },
    };
    let (capacity, free, n) = match (
        report.capacity_bytes,
        report.free_bytes,
        report.eligible_members,
    ) {
        (Some(c), Some(f), Some(n)) => (c, f, n),
        _ => {
            return None;
        },
    };
    if !(at <= now && now - at <= max_age && capacity > 0 && free <= capacity && n > 0 && n
        == count(&report.eligible_devices)) {
        return None;
    }
    let (marks, pressures) = match mark_members(snap, report) {
        Some(m) => m,
        None => {
            return None;
        },
    };
    if pressures.len() != n {
        return None;
    }
    let sorted = sort::<MemberMark, ByMark>(marks);
    let signature = cat3(
        in_brackets(&mark_lines(&sorted)).as_str(),
        ":",
        in_brackets(&policy_lines(&snap.options)).as_str(),
    );
    let (data, metadata) = snap.reconcile.pending("target");
    let backlog = if same(report.role, "metadata") {
        metadata
    } else if same(report.role, "background") {
        data
    } else {
        None
    };
    Some(
        (
            signature,
            HeadroomPoint {
                at,
                free,
                pressure: join_pressure(&pressures),
                gc_running: snap.copygc.running,
                backlog,
            },
        ),
    )
}

} // verus!
