//! Events of a counter over the last minute, in one-second buckets.

use crate::double::{quotient, whole, Double};
use crate::numeral::{fixed, fixed_text, seconds, to_seconds};
use crate::sysfs::{Duration, Instant, SECOND};
use crate::text::{cat3, cat8, copy, decimal, u64_text, Duplicate};
use vstd::prelude::*;

verus! {

/// How long evidence counts: one minute.
pub const WINDOW: Duration = 60_000_000_000;

pub const SLOW_JOURNAL_NS: u64 = 200_000_000;

/// The time from `b` to `a`; none passes backwards.
pub open spec fn since(a: Instant, b: Instant) -> u64 {
    if a >= b {
        (a - b) as u64
    } else {
        0
    }
}

pub fn time_since(a: Instant, b: Instant) -> (r: Duration)
    ensures
        r == since(a, b),
{
    a.saturating_sub(b)
}

/// A sum that stops at the largest number.
pub open spec fn capped_sum(a: u64, b: u64) -> u64 {
    if a + b <= u64::MAX {
        (a + b) as u64
    } else {
        u64::MAX
    }
}

#[derive(Debug, Clone, Copy)]
pub struct Bucket {
    pub start: Instant,
    pub end: Instant,
    pub events: u64,
    pub recent_ns: Option<u64>,
}

impl View for Bucket {
    type V = Bucket;

    open spec fn view(&self) -> Bucket {
        *self
    }
}

/// A counter at its last reading, and the buckets of what happened before it.
#[derive(Debug)]
pub struct CounterWindow {
    pub previous: Option<(Instant, u64)>,
    pub buckets: Vec<Bucket>,
}

#[verifier::ext_equal]
pub struct CounterWindowView {
    pub previous: Option<(Instant, u64)>,
    pub buckets: Seq<Bucket>,
}

impl View for CounterWindow {
    type V = CounterWindowView;

    open spec fn view(&self) -> CounterWindowView {
        CounterWindowView { previous: self.previous, buckets: self.buckets@ }
    }
}

impl CounterWindowView {
    pub open spec fn blank() -> CounterWindowView {
        CounterWindowView { previous: None, buckets: Seq::empty() }
    }
}

impl Default for CounterWindow {
    fn default() -> (r: CounterWindow)
        ensures
            r@ == CounterWindowView::blank(),
    {
        let r = CounterWindow { previous: None, buckets: Vec::new() };
        assert(r@ =~= CounterWindowView::blank());
        r
    }
}

impl Duplicate for CounterWindow {
    fn duplicate(&self) -> (r: CounterWindow) {
        let mut buckets: Vec<Bucket> = Vec::new();
        let mut i: usize = 0;
        while i < self.buckets.len()
            invariant
                i <= self.buckets@.len(),
                buckets@ =~= self.buckets@.take(i as int),
            decreases self.buckets@.len() - i,
        {
            buckets.push(self.buckets[i]);
            i = i + 1;
        }
        let r = CounterWindow { previous: self.previous, buckets };
        assert(r@ =~= self@);
        r
    }
}

/// What a window shows: its events, the seconds that it covers, and the
/// latest mean that came with an event.
#[derive(Debug, Clone, Copy)]
pub struct CounterEvidence {
    pub events: u64,
    pub seconds: Double,
    pub recent_ns: Option<u64>,
}

impl CounterEvidence {
    pub open spec fn is_slow(self) -> bool {
        self.events > 0 && self.recent_ns is Some && self.recent_ns->0 >= SLOW_JOURNAL_NS
    }

    pub fn slow(self) -> (r: bool)
        ensures
            r == self.is_slow(),
    {
        match self.recent_ns {
            Some(n) => self.events > 0 && n >= SLOW_JOURNAL_NS,
            None => false,
        }
    }

    pub open spec fn text(self, name: Seq<char>) -> Seq<char> {
        let latency = match self.recent_ns {
            Some(ns) => "; latest active EWMA "@ + fixed(
                quotient(whole(ns as nat), whole(1_000_000)),
                1,
            ) + "ms"@,
            None => ""@,
        };
        name + ": "@ + decimal(self.events as nat) + " events over "@ + fixed(self.seconds, 1)
            + "s ("@ + fixed(quotient(whole(self.events as nat), self.seconds), 2) + "/s)"@
            + latency
    }

    pub fn describe(self, name: &str) -> (r: String)
        ensures
            r@ == self.text(name@),
    {
        let latency = match self.recent_ns {
            Some(ns) => cat3(
                "; latest active EWMA ",
                fixed_text(Double::from_u64(ns).over(Double::from_u64(1_000_000)), 1).as_str(),
                "ms",
            ),
            None => copy(""),
        };
        let mut r = cat8(
            name,
            ": ",
            u64_text(self.events).as_str(),
            " events over ",
            fixed_text(self.seconds, 1).as_str(),
            "s (",
            fixed_text(Double::from_u64(self.events).over(self.seconds), 2).as_str(),
            "/s)",
        );
        r.append(latency.as_str());
        r
    }
}

// ------------------------------------------------------------------ observing

/// The buckets with the events of one interval: they join the last bucket
/// while that is shorter than a second.
pub open spec fn with_interval(
    buckets: Seq<Bucket>,
    start: Instant,
    now: Instant,
    events: u64,
    recent_ns: Option<u64>,
) -> Seq<Bucket> {
    let n = buckets.len();
    if n > 0 && since(buckets.last().end, buckets.last().start) < SECOND && since(
        now,
        buckets.last().start,
    ) <= WINDOW {
        let last = buckets.last();
        buckets.update(
            n - 1,
            Bucket {
                start: last.start,
                end: now,
                events: capped_sum(last.events, events),
                recent_ns: if events > 0 {
                    recent_ns
                } else {
                    last.recent_ns
                },
            },
        )
    } else {
        buckets.push(Bucket { start, end: now, events, recent_ns })
    }
}

/// The buckets without those at the front that started before the window.
pub open spec fn within_window(buckets: Seq<Bucket>, now: Instant) -> Seq<Bucket>
    decreases buckets.len(),
{
    if buckets.len() > 0 && since(now, buckets[0].start) > WINDOW {
        within_window(buckets.skip(1), now)
    } else {
        buckets
    }
}

pub open spec fn events_in(buckets: Seq<Bucket>) -> u64
    decreases buckets.len(),
{
    if buckets.len() == 0 {
        0
    } else {
        capped_sum(events_in(buckets.drop_last()), buckets.last().events)
    }
}

/// The mean of the last bucket that has events.
pub open spec fn latest_mean(buckets: Seq<Bucket>) -> Option<u64>
    decreases buckets.len(),
{
    if buckets.len() == 0 {
        None
    } else if buckets.last().events > 0 {
        buckets.last().recent_ns
    } else {
        latest_mean(buckets.drop_last())
    }
}

pub open spec fn evidence_in(buckets: Seq<Bucket>, now: Instant, dt: Duration) -> CounterEvidence {
    CounterEvidence {
        events: events_in(buckets),
        seconds: if buckets.len() == 0 {
            seconds(dt)
        } else {
            seconds(since(now, buckets[0].start))
        },
        recent_ns: latest_mean(buckets),
    }
}

/// Whether an interval continues the observation: time passed, no more than
/// the gap, and the counter did not fall.
pub open spec fn continues(previous: (Instant, u64), now: Instant, count: u64, gap: Duration) -> bool {
    previous.0 < now && now - previous.0 <= gap && previous.1 <= count
}

/// A window after one reading, and what it then shows. A first reading shows
/// nothing; a gap or a counter that fell clears the evidence.
pub open spec fn observed(
    w: CounterWindowView,
    now: Instant,
    count: u64,
    recent_ns: Option<u64>,
    gap: Duration,
) -> (CounterWindowView, Option<CounterEvidence>) {
    match w.previous {
        None => (CounterWindowView { previous: Some((now, count)), buckets: w.buckets }, None),
        Some(p) => if !continues(p, now, count, gap) {
            (CounterWindowView { previous: Some((now, count)), buckets: Seq::empty() }, None)
        } else {
            let events = (count - p.1) as u64;
            let recent = if events > 0 {
                recent_ns
            } else {
                None
            };
            let b = within_window(with_interval(w.buckets, p.0, now, events, recent), now);
            (
                CounterWindowView { previous: Some((now, count)), buckets: b },
                Some(evidence_in(b, now, (now - p.0) as u64)),
            )
        },
    }
}

fn sum_events(buckets: &Vec<Bucket>) -> (r: u64)
    ensures
        r == events_in(buckets@),
{
    let mut sum: u64 = 0;
    let mut i: usize = 0;
    proof {
        assert(buckets@.take(0) =~= Seq::<Bucket>::empty());
    }
    while i < buckets.len()
        invariant
            i <= buckets@.len(),
            sum == events_in(buckets@.take(i as int)),
        decreases buckets@.len() - i,
    {
        proof {
            assert(buckets@.take(i + 1).drop_last() =~= buckets@.take(i as int));
        }
        sum = sum.saturating_add(buckets[i].events);
        i = i + 1;
    }
    proof {
        assert(buckets@.take(i as int) =~= buckets@);
    }
    sum
}

fn find_mean(buckets: &Vec<Bucket>) -> (r: Option<u64>)
    ensures
        r == latest_mean(buckets@),
{
    let mut n: usize = buckets.len();
    proof {
        assert(buckets@.take(n as int) =~= buckets@);
    }
    while n > 0
        invariant
            n <= buckets@.len(),
            latest_mean(buckets@) == latest_mean(buckets@.take(n as int)),
        decreases n,
    {
        proof {
            assert(buckets@.take(n as int).drop_last() =~= buckets@.take(n - 1));
        }
        if buckets[n - 1].events > 0 {
            return buckets[n - 1].recent_ns;
        }
        n = n - 1;
    }
    None
}

impl CounterWindow {
    pub fn observe(
        &mut self,
        now: Instant,
        count: u64,
        recent_ns: Option<u64>,
        max_gap: Duration,
    ) -> (r: Option<CounterEvidence>)
        ensures
            (final(self)@, r) == observed(old(self)@, now, count, recent_ns, max_gap),
    {
        let previous = self.previous;
        self.previous = Some((now, count));
        let (start, old_count) = match previous {
            Some(p) => p,
            None => {
                return None;
            },
        };
        if !(start < now && now - start <= max_gap && old_count <= count) {
            self.buckets = Vec::new();
            return None;
        }
        let events: u64 = count - old_count;
        let recent = if events > 0 {
            recent_ns
        } else {
            None
        };
        let ghost before = self.buckets@;
        let n = self.buckets.len();
        if n > 0 && time_since(self.buckets[n - 1].end, self.buckets[n - 1].start) < SECOND
            && time_since(now, self.buckets[n - 1].start) <= WINDOW {
            let last = self.buckets[n - 1];
            self.buckets.set(
                n - 1,
                Bucket {
                    start: last.start,
                    end: now,
                    events: last.events.saturating_add(events),
                    recent_ns: if events > 0 {
                        recent
                    } else {
                        last.recent_ns
                    },
                },
            );
        } else {
            self.buckets.push(Bucket { start, end: now, events, recent_ns: recent });
        }
        let ghost merged = self.buckets@;
        assert(merged == with_interval(before, start, now, events, recent));
        while self.buckets.len() > 0 && time_since(now, self.buckets[0].start) > WINDOW
            invariant
                self.previous == Some((now, count)),
                within_window(merged, now) == within_window(self.buckets@, now),
            decreases self.buckets@.len(),
        {
            let ghost b = self.buckets@;
            self.buckets.remove(0);
            assert(self.buckets@ =~= b.skip(1));
        }
        let covered = if self.buckets.len() == 0 {
            to_seconds(now - start)
        } else {
            to_seconds(time_since(now, self.buckets[0].start))
        };
        Some(
            CounterEvidence {
                events: sum_events(&self.buckets),
                seconds: covered,
                recent_ns: find_mean(&self.buckets),
            },
        )
    }
}

// ----------------------------------------------------------------------- laws

impl CounterWindowView {
    /// Whether the buckets follow each other up to the last reading, all but
    /// the last at least a second long, and none outside of the window.
    pub open spec fn valid(self) -> bool {
        let b = self.buckets;
        &&& self.previous is None ==> b.len() == 0
        &&& forall|i: int| 0 <= i < b.len() ==> (#[trigger] b[i]).start <= b[i].end
        &&& forall|i: int, j: int| 0 <= i < j < b.len() ==> (#[trigger] b[i]).end <= (#[trigger] b[j]).start
        &&& forall|i: int| 0 <= i < b.len() - 1 ==> (#[trigger] b[i]).end - b[i].start >= SECOND
        &&& b.len() > 0 ==> b.last().end == (self.previous->0).0
        &&& b.len() > 0 ==> b.last().end - b[0].start <= WINDOW
    }
}

/// `n` buckets that follow each other, each at least a second long, take at
/// least `n` seconds.
proof fn lemma_seconds(b: Seq<Bucket>, n: int)
    requires
        0 <= n < b.len(),
        forall|i: int| 0 <= i < b.len() ==> (#[trigger] b[i]).start <= b[i].end,
        forall|i: int, j: int| 0 <= i < j < b.len() ==> (#[trigger] b[i]).end <= (#[trigger] b[j]).start,
        forall|i: int| 0 <= i < b.len() - 1 ==> (#[trigger] b[i]).end - b[i].start >= SECOND,
    ensures
        b[n].start - b[0].start >= n * SECOND,
    decreases n,
{
    if n > 0 {
        lemma_seconds(b, n - 1);
        assert(b[n - 1].end <= b[n].start);
        assert(n * SECOND == (n - 1) * SECOND + SECOND) by (nonlinear_arith);
    }
}

/// A valid window holds at most 61 buckets.
pub proof fn law_window_is_bounded(w: CounterWindowView)
    requires
        w.valid(),
    ensures
        w.buckets.len() <= 61,
{
    let b = w.buckets;
    if b.len() > 0 {
        let n = b.len() - 1;
        lemma_seconds(b, n);
        assert(n * SECOND <= WINDOW);
        assert(n <= 60) by (nonlinear_arith)
            requires
                n * SECOND <= WINDOW,
                SECOND == 1_000_000_000,
                WINDOW == 60_000_000_000,
        ;
    }
}

proof fn lemma_dropped(b: Seq<Bucket>, now: Instant)
    requires
        forall|i: int, j: int| 0 <= i < j < b.len() ==> (#[trigger] b[i]).start <= (#[trigger] b[j]).start,
    ensures
        within_window(b, now).len() <= b.len(),
        within_window(b, now) == b.skip(b.len() - within_window(b, now).len()),
        forall|i: int|
            0 <= i < within_window(b, now).len() ==> since(
                now,
                (#[trigger] within_window(b, now)[i]).start,
            ) <= WINDOW,
        forall|i: int|
            0 <= i < b.len() && since(now, (#[trigger] b[i]).start) <= WINDOW ==> b.len()
                - within_window(b, now).len() <= i,
    decreases b.len(),
{
    let r = within_window(b, now);
    if b.len() > 0 && since(now, b[0].start) > WINDOW {
        let t = b.skip(1);
        assert forall|i: int, j: int| 0 <= i < j < t.len() implies (#[trigger] t[i]).start <= (
        #[trigger] t[j]).start by {
            assert(t[i] == b[i + 1] && t[j] == b[j + 1]);
        }
        lemma_dropped(t, now);
        assert(r =~= b.skip(b.len() - r.len()));
        assert forall|i: int| 0 <= i < b.len() && since(now, (#[trigger] b[i]).start)
            <= WINDOW implies b.len() - r.len() <= i by {
            if i > 0 {
                assert(t[i - 1] == b[i]);
            }
        }
    } else {
        assert(b.skip(0) =~= b);
        assert forall|i: int| 0 <= i < r.len() implies since(now, (#[trigger] r[i]).start)
            <= WINDOW by {
            if i > 0 {
                assert(b[0].start <= b[i].start);
            }
        }
    }
}

/// Every reading keeps a window valid, so it stays bounded however often a
/// counter is read.
pub proof fn law_observing_keeps_windows_valid(
    w: CounterWindowView,
    now: Instant,
    count: u64,
    recent_ns: Option<u64>,
    gap: Duration,
)
    requires
        w.valid(),
    ensures
        observed(w, now, count, recent_ns, gap).0.valid(),
        observed(w, now, count, recent_ns, gap).0.buckets.len() <= 61,
{
    let r = observed(w, now, count, recent_ns, gap).0;
    if let Some(p) = w.previous {
        if continues(p, now, count, gap) {
            let events = (count - p.1) as u64;
            let recent = if events > 0 {
                recent_ns
            } else {
                None
            };
            let b = w.buckets;
            let m = with_interval(b, p.0, now, events, recent);
            let n = b.len() as int;
            assert forall|i: int, j: int| 0 <= i < j < m.len() implies (#[trigger] m[i]).end <= (
            #[trigger] m[j]).start by {
                if j == n {
                    assert(b[n - 1].end == p.0);
                    if i < n - 1 {
                        assert(b[i].end <= b[n - 1].start);
                        assert(b[n - 1].start <= b[n - 1].end);
                    }
                } else {
                    assert(m[i].end == b[i].end);
                    assert(m[j].start == b[j].start);
                }
            }
            assert forall|i: int| 0 <= i < m.len() implies (#[trigger] m[i]).start <= m[i].end by {
                if i < n {
                    assert(b[i].start <= b[i].end);
                    assert(m[i].start == b[i].start);
                    if i == n - 1 {
                        assert(b[n - 1].end == p.0);
                    }
                }
            }
            assert forall|i: int, j: int| 0 <= i < j < m.len() implies (#[trigger] m[i]).start <= (
            #[trigger] m[j]).start by {
                assert(m[i].start <= m[i].end);
                assert(m[i].end <= m[j].start);
            }
            lemma_dropped(m, now);
            let k = within_window(m, now);
            let gone = m.len() - k.len();
            assert(r.buckets == k);
            assert forall|i: int| 0 <= i < k.len() implies #[trigger] k[i] == m[i + gone] by {}
            assert(m.last().end == now);
            assert forall|i: int| 0 <= i < k.len() - 1 implies (#[trigger] k[i]).end - k[i].start
                >= SECOND by {
                assert(k[i] == m[i + gone]);
                let q = i + gone;
                if m.len() == n + 1 && q == n - 1 {
                    // A short last bucket is kept only where the interval joins it.
                    assert(m[q] == b[n - 1]);
                    assert(since(now, m[q].start) <= WINDOW) by {
                        assert(since(now, k[i].start) <= WINDOW);
                    }
                } else {
                    assert(m[q] == b[q]);
                }
            }
            if k.len() > 0 {
                assert(k.last() == m.last());
                assert(since(now, k[0].start) <= WINDOW);
                assert(k[0].start <= k.last().end) by {
                    assert(k[0] == m[gone]);
                    if gone < m.len() - 1 {
                        assert(m[gone].end <= m[m.len() - 1].start);
                    }
                }
            }
        }
    }
    law_window_is_bounded(r);
}

/// A gap, a clock that did not advance or a counter that fell leaves no
/// evidence behind.
pub proof fn law_a_break_clears_the_evidence(
    w: CounterWindowView,
    now: Instant,
    count: u64,
    recent_ns: Option<u64>,
    gap: Duration,
)
    requires
        w.previous is Some,
        !continues(w.previous->0, now, count, gap),
    ensures
        observed(w, now, count, recent_ns, gap).1 is None,
        observed(w, now, count, recent_ns, gap).0.buckets.len() == 0,
{
}

/// A mean that stands still counts for nothing: while no operation finished, it
/// changes neither the window nor what it shows.
pub proof fn law_an_idle_mean_does_not_count(
    w: CounterWindowView,
    now: Instant,
    recent_ns: Option<u64>,
    gap: Duration,
)
    requires
        w.previous is Some,
    ensures
        observed(w, now, (w.previous->0).1, recent_ns, gap) == observed(
            w,
            now,
            (w.previous->0).1,
            None,
            gap,
        ),
{
}

/// What a window shows covers at most a minute, however long a counter was
/// watched.
pub proof fn law_evidence_covers_at_most_a_minute(
    w: CounterWindowView,
    now: Instant,
    count: u64,
    recent_ns: Option<u64>,
    gap: Duration,
)
    requires
        w.valid(),
        gap <= 60_000_000_000,
    ensures
        observed(w, now, count, recent_ns, gap).1 matches Some(e) ==> exists|n: Duration|
            n <= 60_000_000_000 && e.seconds == #[trigger] seconds(n),
{
    law_observing_keeps_windows_valid(w, now, count, recent_ns, gap);
    let r = observed(w, now, count, recent_ns, gap);
    if let Some(e) = r.1 {
        let b = r.0.buckets;
        let n = if b.len() == 0 {
            (now - (w.previous->0).0) as u64
        } else {
            since(now, b[0].start)
        };
        assert(e.seconds == seconds(n));
    }
}

// ------------------------------------------------------------ runs of readings

/// One reading of a counter.
pub struct Reading {
    pub at: Instant,
    pub count: u64,
    pub recent_ns: Option<u64>,
    pub gap: Duration,
}

/// A window after a series of readings, and what it shows after the last.
pub open spec fn watched(rs: Seq<Reading>) -> (CounterWindowView, Option<CounterEvidence>)
    decreases rs.len(),
{
    if rs.len() == 0 {
        (CounterWindowView::blank(), None)
    } else {
        let r = rs.last();
        observed(watched(rs.drop_last()).0, r.at, r.count, r.recent_ns, r.gap)
    }
}

/// When a counter was read, and what it was, since the last break.
pub open spec fn unbroken(rs: Seq<Reading>) -> Seq<(Instant, u64)>
    decreases rs.len(),
{
    if rs.len() == 0 {
        Seq::empty()
    } else {
        let r = rs.last();
        let run = unbroken(rs.drop_last());
        if run.len() > 0 && continues(run.last(), r.at, r.count, r.gap) {
            run.push((r.at, r.count))
        } else {
            seq![(r.at, r.count)]
        }
    }
}

/// What a counter was when it was read at a time.
spec fn count_at(run: Seq<(Instant, u64)>, t: Instant) -> Option<u64>
    decreases run.len(),
{
    if run.len() == 0 {
        None
    } else if run.last().0 == t {
        Some(run.last().1)
    } else {
        count_at(run.drop_last(), t)
    }
}

/// Whether a bucket holds what a counter rose by between two readings.
spec fn spans(run: Seq<(Instant, u64)>, b: Bucket) -> bool {
    match (count_at(run, b.start), count_at(run, b.end)) {
        (Some(from), Some(to)) => b.start < b.end && from <= to && b.events == to - from,
        _ => false,
    }
}

/// Whether a window holds a run: its buckets follow each other without a gap up
/// to the last reading, each from one reading to another.
spec fn holds_run(w: CounterWindowView, run: Seq<(Instant, u64)>) -> bool {
    let b = w.buckets;
    &&& run.len() == 0 ==> w.previous is None && b.len() == 0
    &&& run.len() > 0 ==> w.previous == Some(run.last())
    &&& forall|i: int, j: int| 0 <= i < j < run.len() ==> (#[trigger] run[i]).0 < (
    #[trigger] run[j]).0
    &&& forall|i: int| 0 <= i < b.len() ==> spans(run, #[trigger] b[i])
    &&& forall|i: int, j: int|
        0 <= i && j == i + 1 && j < b.len() ==> (#[trigger] b[i]).end == (#[trigger] b[j]).start
    &&& b.len() > 0 ==> b.last().end == run.last().0
}

proof fn lemma_read_before(run: Seq<(Instant, u64)>, t: Instant)
    requires
        forall|i: int, j: int| 0 <= i < j < run.len() ==> (#[trigger] run[i]).0 < (
        #[trigger] run[j]).0,
        count_at(run, t) is Some,
    ensures
        run.len() > 0,
        t <= run.last().0,
        exists|p: int| 0 <= p < run.len() && #[trigger] run[p] == (t, count_at(run, t)->0),
    decreases run.len(),
{
    if run.len() > 0 {
        let n = run.len() - 1;
        if run.last().0 == t {
            assert(run[n] == (t, count_at(run, t)->0));
        } else {
            let rest = run.drop_last();
            assert forall|i: int, j: int| 0 <= i < j < rest.len() implies (#[trigger] rest[i]).0 < (
            #[trigger] rest[j]).0 by {
                assert(rest[i] == run[i] && rest[j] == run[j]);
            }
            lemma_read_before(rest, t);
            let p = choose|p: int| 0 <= p < rest.len() && #[trigger] rest[p] == (
                t,
                count_at(rest, t)->0,
            );
            assert(run[p] == (t, count_at(run, t)->0));
            assert(run[p].0 < run[n].0);
        }
    }
}

/// A further reading leaves what was read before.
proof fn lemma_read_later(run: Seq<(Instant, u64)>, r: (Instant, u64), t: Instant)
    requires
        forall|i: int, j: int| 0 <= i < j < run.len() ==> (#[trigger] run[i]).0 < (
        #[trigger] run[j]).0,
        run.len() > 0,
        run.last().0 < r.0,
        count_at(run, t) is Some,
    ensures
        count_at(run.push(r), t) == count_at(run, t),
{
    lemma_read_before(run, t);
    assert(run.push(r).drop_last() =~= run);
}

/// The events of buckets that follow each other are what the counter rose by.
proof fn lemma_events(run: Seq<(Instant, u64)>, b: Seq<Bucket>)
    requires
        b.len() > 0,
        forall|i: int| 0 <= i < b.len() ==> spans(run, #[trigger] b[i]),
        forall|i: int, j: int|
            0 <= i && j == i + 1 && j < b.len() ==> (#[trigger] b[i]).end == (
            #[trigger] b[j]).start,
    ensures
        count_at(run, b[0].start) is Some,
        count_at(run, b.last().end) is Some,
        count_at(run, b[0].start)->0 <= count_at(run, b.last().end)->0,
        b[0].start < b.last().end,
        events_in(b) == count_at(run, b.last().end)->0 - count_at(run, b[0].start)->0,
    decreases b.len(),
{
    let n = b.len() - 1;
    assert(spans(run, b[n]));
    assert(spans(run, b[0]));
    let rest = b.drop_last();
    if n > 0 {
        assert forall|i: int| 0 <= i < rest.len() implies spans(run, #[trigger] rest[i]) by {
            assert(rest[i] == b[i]);
        }
        assert forall|i: int, j: int| 0 <= i && j == i + 1 && j < rest.len() implies (
        #[trigger] rest[i]).end == (#[trigger] rest[j]).start by {
            assert(rest[i] == b[i] && rest[j] == b[j]);
        }
        lemma_events(run, rest);
        assert(rest.last() == b[n - 1]);
        assert(b[n - 1].end == b[n].start);
    } else {
        assert(events_in(rest) == 0);
    }
}

proof fn lemma_within_window_is_tail(b: Seq<Bucket>, now: Instant)
    ensures
        within_window(b, now).len() <= b.len(),
        forall|i: int|
            0 <= i < within_window(b, now).len() ==> #[trigger] within_window(b, now)[i] == b[i
                + b.len() - within_window(b, now).len()],
        b.len() > 0 && since(now, b.last().start) <= WINDOW ==> within_window(b, now).len() > 0,
    decreases b.len(),
{
    if b.len() > 0 && since(now, b[0].start) > WINDOW {
        let t = b.skip(1);
        lemma_within_window_is_tail(t, now);
        if t.len() > 0 {
            assert(t.last() == b.last());
        }
    }
}

/// One reading more, that continues the run.
proof fn lemma_run_continues(
    w: CounterWindowView,
    run: Seq<(Instant, u64)>,
    now: Instant,
    count: u64,
    recent_ns: Option<u64>,
    gap: Duration,
)
    requires
        holds_run(w, run),
        run.len() > 0,
        continues(run.last(), now, count, gap),
    ensures
        holds_run(observed(w, now, count, recent_ns, gap).0, run.push((now, count))),
        gap <= WINDOW ==> observed(w, now, count, recent_ns, gap).0.buckets.len() > 0,
{
    let p = run.last();
    let next = run.push((now, count));
    let events = (count - p.1) as u64;
    let recent = if events > 0 {
        recent_ns
    } else {
        None
    };
    let b = w.buckets;
    let n = b.len() as int;
    let m = with_interval(b, p.0, now, events, recent);
    assert(next.drop_last() =~= run);
    assert(count_at(next, now) == Some(count));
    assert(count_at(run, p.0) == Some(p.1));
    lemma_read_later(run, (now, count), p.0);
    assert forall|i: int| 0 <= i < n implies spans(next, #[trigger] b[i]) by {
        assert(spans(run, b[i]));
        lemma_read_later(run, (now, count), b[i].start);
        lemma_read_later(run, (now, count), b[i].end);
    }
    assert forall|i: int| 0 <= i < m.len() implies spans(next, #[trigger] m[i]) by {
        if m.len() == n + 1 {
            if i < n {
                assert(m[i] == b[i]);
            }
        } else if i == n - 1 {
            assert(spans(next, b[i]));
            assert(b[i].end == p.0);
        } else {
            assert(m[i] == b[i]);
        }
    }
    assert forall|i: int, j: int| 0 <= i && j == i + 1 && j < m.len() implies (
    #[trigger] m[i]).end == (#[trigger] m[j]).start by {
        assert(m[i].end == b[i].end);
        if j < n {
            assert(b[i].end == b[j].start);
        }
    }
    lemma_within_window_is_tail(m, now);
    let k = within_window(m, now);
    let gone = m.len() - k.len();
    assert forall|i: int| 0 <= i < k.len() implies spans(next, #[trigger] k[i]) by {
        assert(k[i] == m[i + gone]);
    }
    assert forall|i: int, j: int| 0 <= i && j == i + 1 && j < k.len() implies (
    #[trigger] k[i]).end == (#[trigger] k[j]).start by {
        assert(k[i] == m[i + gone] && k[j] == m[j + gone]);
        assert(m[i + gone].end == m[j + gone].start);
    }
    assert(m.last().end == now);
    if k.len() > 0 {
        assert(k[k.len() - 1] == m[m.len() - 1]);
    }
    assert forall|i: int, j: int| 0 <= i < j < next.len() implies (#[trigger] next[i]).0 < (
    #[trigger] next[j]).0 by {
        if j < run.len() {
            assert(next[i] == run[i] && next[j] == run[j]);
        } else if i < run.len() - 1 {
            assert(run[i].0 < run[run.len() - 1].0);
        }
    }
}

proof fn lemma_watched_holds_run(rs: Seq<Reading>)
    ensures
        holds_run(watched(rs).0, unbroken(rs)),
        rs.len() > 0 ==> unbroken(rs).len() > 0 && unbroken(rs).last() == (
            rs.last().at,
            rs.last().count,
        ),
    decreases rs.len(),
{
    if rs.len() > 0 {
        let r = rs.last();
        let w = watched(rs.drop_last()).0;
        let run = unbroken(rs.drop_last());
        lemma_watched_holds_run(rs.drop_last());
        if run.len() > 0 && continues(run.last(), r.at, r.count, r.gap) {
            lemma_run_continues(w, run, r.at, r.count, r.recent_ns, r.gap);
        }
    }
}

/// Events are counted, neither invented nor lost: what a window shows is what the
/// counter rose by since an earlier reading of the unbroken run, at most a minute
/// ago, and covers the time since that reading. It shows nothing exactly after a
/// first reading, a clock that did not advance, a gap or a counter that fell.
pub proof fn law_events_are_the_rise_since_a_reading(rs: Seq<Reading>)
    requires
        rs.len() > 0,
        rs.last().gap <= 60_000_000_000,
    ensures
        ({
            let now = rs.last().at;
            let run = unbroken(rs);
            let shown = watched(rs).1;
            &&& shown is None <==> rs.len() == 1 || !continues(
                (rs[rs.len() - 2].at, rs[rs.len() - 2].count),
                now,
                rs.last().count,
                rs.last().gap,
            )
            &&& shown is None <==> run.len() == 1
            &&& shown matches Some(e) ==> exists|p: int|
                0 <= p < run.len() - 1 && 0 < now - (#[trigger] run[p]).0 <= 60_000_000_000 && e.seconds
                    == seconds((now - run[p].0) as u64) && e.events == rs.last().count - run[p].1
        }),
{
    let r = rs.last();
    let rest = rs.drop_last();
    let w = watched(rest).0;
    let run = unbroken(rest);
    lemma_watched_holds_run(rest);
    lemma_watched_holds_run(rs);
    if rs.len() > 1 {
        assert(rest.last() == rs[rs.len() - 2]);
        if continues(run.last(), r.at, r.count, r.gap) {
            lemma_run_continues(w, run, r.at, r.count, r.recent_ns, r.gap);
            let next = run.push((r.at, r.count));
            let after = observed(w, r.at, r.count, r.recent_ns, r.gap);
            let b = after.0.buckets;
            lemma_events(next, b);
            lemma_read_before(next, b[0].start);
            let p = choose|p: int| 0 <= p < next.len() && #[trigger] next[p] == (
                b[0].start,
                count_at(next, b[0].start)->0,
            );
            assert(next.drop_last() =~= run);
            assert(count_at(next, r.at) == Some(r.count));
            assert(b.last().end == r.at);
            assert(p < next.len() - 1);
            let events = (r.count - run.last().1) as u64;
            let recent = if events > 0 {
                r.recent_ns
            } else {
                None
            };
            lemma_front_is_young(with_interval(w.buckets, run.last().0, r.at, events, recent), r.at);
            assert(unbroken(rs) == next);
        }
    }
}

proof fn lemma_front_is_young(b: Seq<Bucket>, now: Instant)
    ensures
        within_window(b, now).len() > 0 ==> since(now, within_window(b, now)[0].start) <= WINDOW,
    decreases b.len(),
{
    if b.len() > 0 && since(now, b[0].start) > WINDOW {
        lemma_front_is_young(b.skip(1), now);
    }
}

/// The mean that came with the latest rise of the counter since the last break.
pub open spec fn mean_of_latest_rise(rs: Seq<Reading>) -> Option<u64>
    decreases rs.len(),
{
    if rs.len() < 2 {
        None
    } else {
        let r = rs.last();
        let before = rs[rs.len() - 2];
        if !continues((before.at, before.count), r.at, r.count, r.gap) {
            None
        } else if r.count > before.count {
            r.recent_ns
        } else {
            mean_of_latest_rise(rs.drop_last())
        }
    }
}

spec fn has_events(b: Seq<Bucket>) -> bool {
    exists|i: int| 0 <= i < b.len() && (#[trigger] b[i]).events > 0
}

proof fn lemma_no_events(b: Seq<Bucket>)
    ensures
        has_events(b) <==> events_in(b) > 0,
        !has_events(b) ==> latest_mean(b) is None,
    decreases b.len(),
{
    if b.len() > 0 {
        let rest = b.drop_last();
        lemma_no_events(rest);
        let n = b.len() - 1;
        if has_events(rest) {
            let i = choose|i: int| 0 <= i < rest.len() && (#[trigger] rest[i]).events > 0;
            assert(b[i].events > 0);
        }
        if has_events(b) {
            let i = choose|i: int| 0 <= i < b.len() && (#[trigger] b[i]).events > 0;
            if i < n {
                assert(rest[i].events > 0);
            }
        }
        assert(b[n] == b.last());
    }
}

/// Buckets at the front do not matter while one behind them has events.
proof fn lemma_mean_of_tail(b: Seq<Bucket>, gone: int)
    requires
        0 <= gone <= b.len(),
        has_events(b.skip(gone)),
    ensures
        latest_mean(b.skip(gone)) == latest_mean(b),
        has_events(b),
    decreases b.len(),
{
    let t = b.skip(gone);
    let i = choose|i: int| 0 <= i < t.len() && (#[trigger] t[i]).events > 0;
    assert(b[i + gone].events > 0);
    assert(t.last() == b.last());
    if b.last().events == 0 {
        let rest = b.drop_last();
        assert(t.drop_last() =~= rest.skip(gone));
        assert(rest.skip(gone)[i].events > 0);
        lemma_mean_of_tail(rest, gone);
    }
}

proof fn lemma_mean_watched(rs: Seq<Reading>)
    ensures
        has_events(watched(rs).0.buckets) ==> latest_mean(watched(rs).0.buckets)
            == mean_of_latest_rise(rs),
    decreases rs.len(),
{
    if rs.len() > 0 {
        let r = rs.last();
        let rest = rs.drop_last();
        let w = watched(rest).0;
        lemma_mean_watched(rest);
        lemma_watched_holds_run(rest);
        if rs.len() > 1 {
            assert(rest.last() == rs[rs.len() - 2]);
            let p = (rest.last().at, rest.last().count);
            assert(w.previous == Some(p));
            if continues(p, r.at, r.count, r.gap) {
                let events = (r.count - p.1) as u64;
                let recent = if events > 0 {
                    r.recent_ns
                } else {
                    None
                };
                let b = w.buckets;
                let m = with_interval(b, p.0, r.at, events, recent);
                if events > 0 {
                    assert(m.last().events > 0);
                    assert(latest_mean(m) == r.recent_ns);
                } else {
                    lemma_no_events(b);
                    if m.len() > b.len() {
                        assert(m.drop_last() =~= b);
                    } else {
                        assert(m =~= b.update(b.len() - 1, m.last()));
                        assert(m.drop_last() =~= b.drop_last());
                        assert(m.last().events == b.last().events);
                    }
                    assert(latest_mean(m) == latest_mean(b));
                    if has_events(m) {
                        let i = choose|i: int| 0 <= i < m.len() && (#[trigger] m[i]).events > 0;
                        assert(b[i].events > 0);
                    }
                }
                lemma_within_window_is_tail(m, r.at);
                let k = within_window(m, r.at);
                assert(k =~= m.skip(m.len() - k.len()));
                if has_events(k) {
                    lemma_mean_of_tail(m, m.len() - k.len());
                }
            }
        }
    }
}

/// A mean counts where its operation finished: what a window shows is the mean that
/// came with the latest rise, and none without a rise. So an operation is called
/// slow only where it was slow when it was last in use.
pub proof fn law_a_mean_is_that_of_the_latest_rise(rs: Seq<Reading>)
    ensures
        watched(rs).1 matches Some(e) ==> e.recent_ns == if e.events > 0 {
            mean_of_latest_rise(rs)
        } else {
            None
        },
        watched(rs).1 matches Some(e) ==> (e.is_slow() <==> e.events > 0 && (
        mean_of_latest_rise(rs) matches Some(ns) && ns >= 200_000_000)),
{
    lemma_mean_watched(rs);
    lemma_no_events(watched(rs).0.buckets);
}

} // verus!
