//! Evidence that outlives a sample: stalls, errors, state changes and journal
//! pressure. All time is given by the caller.

use crate::double::{product, quotient, whole, Double};
use crate::numeral::{fixed, fixed_text, seconds, to_seconds};
use crate::order::{arranged, sort, ByText, Rule};
use crate::strmap::{behind, find, has_key, keys_ordered, put, without, StrMap};
use crate::sysfs::{
    DeviceInfo, DeviceInfoView, Duration, FsSnapshot, FsSnapshotView, Instant, TimeStatFull,
    TimeStatFullView, SECOND,
};
use crate::targets::Severity;
use crate::text::{
    cat2, cat3, cat4, cat5, cat6, cat8, cat9, copy, copy_all, count, decimal, has_prefix, holds,
    is_empty, item, join, joined, lemma_views_push, same, starts_with, u64_text, usize_text, views,
    Duplicate,
};
use crate::window::{
    observed, since, time_since, CounterEvidence, CounterWindow, CounterWindowView, WINDOW,
};
use vstd::prelude::*;

verus! {

/// How long outstanding requests must go without a completion.
pub const IO_STALL_AFTER: Duration = 30_000_000_000;

pub const MAX_RECENT_FINDINGS: usize = 128;

#[derive(Debug, Clone, Copy, PartialEq, Eq, Structural)]
pub enum Confidence {
    Observed,
    PossibleCause,
}

#[derive(Debug, Clone, Copy, PartialEq, Eq, Structural)]
pub enum Status {
    Active,
    Resolved,
    Stale,
}

#[derive(Debug)]
pub struct Diagnostic {
    pub id: String,
    pub severity: Severity,
    pub confidence: Confidence,
    pub summary: String,
    pub evidence: Vec<String>,
    pub action: String,
    pub criteria: String,
    pub first_seen: Instant,
    pub last_seen: Instant,
    pub status_since: Instant,
    pub status: Status,
}

#[verifier::ext_equal]
pub struct DiagnosticView {
    pub id: Seq<char>,
    pub severity: Severity,
    pub confidence: Confidence,
    pub summary: Seq<char>,
    pub evidence: Seq<Seq<char>>,
    pub action: Seq<char>,
    pub criteria: Seq<char>,
    pub first_seen: Instant,
    pub last_seen: Instant,
    pub status_since: Instant,
    pub status: Status,
}

impl View for Diagnostic {
    type V = DiagnosticView;

    open spec fn view(&self) -> DiagnosticView {
        DiagnosticView {
            id: self.id@,
            severity: self.severity,
            confidence: self.confidence,
            summary: self.summary@,
            evidence: views(self.evidence@),
            action: self.action@,
            criteria: self.criteria@,
            first_seen: self.first_seen,
            last_seen: self.last_seen,
            status_since: self.status_since,
            status: self.status,
        }
    }
}

impl Duplicate for Diagnostic {
    fn duplicate(&self) -> (r: Diagnostic) {
        Diagnostic {
            id: copy(self.id.as_str()),
            severity: self.severity,
            confidence: self.confidence,
            summary: copy(self.summary.as_str()),
            evidence: copy_all(&self.evidence),
            action: copy(self.action.as_str()),
            criteria: copy(self.criteria.as_str()),
            first_seen: self.first_seen,
            last_seen: self.last_seen,
            status_since: self.status_since,
            status: self.status,
        }
    }
}

impl Clone for Diagnostic {
    fn clone(&self) -> (r: Diagnostic)
        ensures
            r@ == self@,
    {
        self.duplicate()
    }
}

/// What a sample shows of one diagnostic.
#[derive(Debug)]
pub struct Observation {
    pub severity: Severity,
    pub confidence: Confidence,
    pub summary: String,
    pub evidence: Vec<String>,
    pub action: String,
}

#[verifier::ext_equal]
pub struct ObservationView {
    pub severity: Severity,
    pub confidence: Confidence,
    pub summary: Seq<char>,
    pub evidence: Seq<Seq<char>>,
    pub action: Seq<char>,
}

impl View for Observation {
    type V = ObservationView;

    open spec fn view(&self) -> ObservationView {
        ObservationView {
            severity: self.severity,
            confidence: self.confidence,
            summary: self.summary@,
            evidence: views(self.evidence@),
            action: self.action@,
        }
    }
}

/// A list of names as one value.
#[derive(Debug)]
pub struct Names {
    pub list: Vec<String>,
}

impl View for Names {
    type V = Seq<Seq<char>>;

    open spec fn view(&self) -> Seq<Seq<char>> {
        views(self.list@)
    }
}

/// The completions and the queue of a device at one sample, and since when
/// nothing was completed.
#[derive(Debug, Clone, Copy)]
pub struct Progress {
    pub at: Instant,
    pub reads: u64,
    pub writes: u64,
    pub discards: Option<u64>,
    pub flushes: Option<u64>,
    pub read_ms: u64,
    pub write_ms: u64,
    pub io_ms: u64,
    pub weighted_io_ms: u64,
    pub queue: u64,
    pub since: Option<Instant>,
    pub samples: usize,
}

impl View for Progress {
    type V = Progress;

    open spec fn view(&self) -> Progress {
        *self
    }
}

pub struct Diagnostics {
    pub filesystem: String,
    pub counters: StrMap<CounterWindow>,
    pub progress: StrMap<Progress>,
    pub member_states: StrMap<(String, bool)>,
    pub error_shapes: StrMap<Names>,
    pub last_update: Option<Instant>,
    pub findings: StrMap<Diagnostic>,
    pub seen: StrMap<bool>,
}

#[verifier::ext_equal]
pub struct DiagnosticsView {
    pub filesystem: Seq<char>,
    pub counters: Seq<(Seq<char>, CounterWindowView)>,
    pub progress: Seq<(Seq<char>, Progress)>,
    pub member_states: Seq<(Seq<char>, (Seq<char>, bool))>,
    pub error_shapes: Seq<(Seq<char>, Seq<Seq<char>>)>,
    pub last_update: Option<Instant>,
    pub findings: Seq<(Seq<char>, DiagnosticView)>,
    pub seen: Seq<(Seq<char>, bool)>,
}

impl View for Diagnostics {
    type V = DiagnosticsView;

    open spec fn view(&self) -> DiagnosticsView {
        DiagnosticsView {
            filesystem: self.filesystem@,
            counters: self.counters@,
            progress: self.progress@,
            member_states: self.member_states@,
            error_shapes: self.error_shapes@,
            last_update: self.last_update,
            findings: self.findings@,
            seen: self.seen@,
        }
    }
}

impl DiagnosticsView {
    /// No evidence of a filesystem.
    pub open spec fn blank(filesystem: Seq<char>) -> DiagnosticsView {
        DiagnosticsView {
            filesystem,
            counters: Seq::empty(),
            progress: Seq::empty(),
            member_states: Seq::empty(),
            error_shapes: Seq::empty(),
            last_update: None,
            findings: Seq::empty(),
            seen: Seq::empty(),
        }
    }
}

impl Diagnostics {
    fn starting(filesystem: &str) -> (r: Diagnostics)
        ensures
            r@ == DiagnosticsView::blank(filesystem@),
    {
        Diagnostics {
            filesystem: copy(filesystem),
            counters: StrMap::new(),
            progress: StrMap::new(),
            member_states: StrMap::new(),
            error_shapes: StrMap::new(),
            last_update: None,
            findings: StrMap::new(),
            seen: StrMap::new(),
        }
    }
}

impl Default for Diagnostics {
    fn default() -> (r: Diagnostics)
        ensures
            r@ == DiagnosticsView::blank(""@),
    {
        Diagnostics::starting("")
    }
}

// ------------------------------------------------------------------- recording

/// The evidence after one reading of a counter; a counter that is missing
/// loses its continuity.
pub open spec fn counter_read(
    st: DiagnosticsView,
    key: Seq<char>,
    now: Instant,
    count: Option<u64>,
    recent_ns: Option<u64>,
    gap: Duration,
) -> (DiagnosticsView, Option<CounterEvidence>) {
    match count {
        Some(n) => {
            let w = match find(st.counters, key) {
                Some(w) => w,
                None => CounterWindowView::blank(),
            };
            let (next, shown) = observed(w, now, n, recent_ns, gap);
            (DiagnosticsView { counters: put(st.counters, key, next), ..st }, shown)
        },
        None => (DiagnosticsView { counters: without(st.counters, key), ..st }, None),
    }
}

/// The findings after one sample of a diagnostic. One that is not observed any
/// more is resolved where the sample could have shown it, and stale else.
pub open spec fn recorded(
    st: DiagnosticsView,
    id: Seq<char>,
    observation: Option<ObservationView>,
    valid: bool,
    now: Instant,
) -> DiagnosticsView {
    let seen = put(st.seen, id, true);
    let old_finding = find(st.findings, id);
    match observation {
        Some(o) => {
            let first = match old_finding {
                Some(d) => if d.status == Status::Active {
                    d.first_seen
                } else {
                    now
                },
                None => now,
            };
            let d = DiagnosticView {
                id,
                severity: o.severity,
                confidence: o.confidence,
                summary: o.summary,
                evidence: o.evidence,
                action: o.action,
                criteria: ""@,
                first_seen: first,
                last_seen: now,
                status_since: first,
                status: Status::Active,
            };
            DiagnosticsView { seen, findings: put(st.findings, id, d), ..st }
        },
        None => match old_finding {
            Some(d) => {
                let status = if valid {
                    Status::Resolved
                } else {
                    Status::Stale
                };
                let since = if status == d.status {
                    d.status_since
                } else {
                    now
                };
                DiagnosticsView {
                    seen,
                    findings: put(
                        st.findings,
                        id,
                        DiagnosticView { status, status_since: since, ..d },
                    ),
                    ..st
                }
            },
            None => DiagnosticsView { seen, ..st },
        },
    }
}

pub open spec fn plain(summary: Seq<char>, evidence: Seq<Seq<char>>, action: Seq<char>) -> ObservationView {
    ObservationView {
        severity: Severity::Warning,
        confidence: Confidence::Observed,
        summary,
        evidence,
        action,
    }
}

impl Observation {
    fn observed(summary: String, evidence: Vec<String>, action: &str) -> (r: Observation)
        ensures
            r@ == plain(summary@, views(evidence@), action@),
    {
        Observation {
            severity: Severity::Warning,
            confidence: Confidence::Observed,
            summary,
            evidence,
            action: copy(action),
        }
    }
}

pub open spec fn opt_seen(o: Option<Observation>) -> Option<ObservationView> {
    match o {
        Some(v) => Some(v@),
        None => None,
    }
}

impl Diagnostics {
    fn counter(
        &mut self,
        key: &str,
        now: Instant,
        count: Option<u64>,
        recent_ns: Option<u64>,
        gap: Duration,
    ) -> (r: Option<CounterEvidence>)
        ensures
            (final(self)@, r) == counter_read(old(self)@, key@, now, count, recent_ns, gap),
    {
        match count {
            Some(n) => {
                let mut w = match self.counters.get(key) {
                    Some(w) => w.duplicate(),
                    None => CounterWindow::default(),
                };
                let shown = w.observe(now, n, recent_ns, gap);
                self.counters.insert(key, w);
                shown
            },
            None => {
                self.counters.remove(key);
                None
            },
        }
    }

    fn record(&mut self, id: &str, observation: Option<Observation>, valid: bool, now: Instant)
        ensures
            final(self)@ == recorded(old(self)@, id@, opt_seen(observation), valid, now),
    {
        let ghost st = self@;
        self.seen.insert(id, true);
        match observation {
            Some(o) => {
                let first: Instant = match self.findings.get(id) {
                    Some(d) => {
                        if d.status == Status::Active {
                            d.first_seen
                        } else {
                            now
                        }
                    },
                    None => now,
                };
                self.findings.insert(
                    id,
                    Diagnostic {
                        id: copy(id),
                        severity: o.severity,
                        confidence: o.confidence,
                        summary: o.summary,
                        evidence: o.evidence,
                        action: o.action,
                        criteria: copy(""),
                        first_seen: first,
                        last_seen: now,
                        status_since: first,
                        status: Status::Active,
                    },
                );
            },
            None => {
                let changed = match self.findings.get(id) {
                    Some(d) => {
                        let mut d = d.duplicate();
                        let status = if valid {
                            Status::Resolved
                        } else {
                            Status::Stale
                        };
                        if status != d.status {
                            d.status_since = now;
                        }
                        d.status = status;
                        Some(d)
                    },
                    None => None,
                };
                if let Some(d) = changed {
                    self.findings.insert(id, d);
                }
            },
        }
    }
}

// ------------------------------------------------------------------ completions

/// A counter that never falls and stays as visible as it was.
pub open spec fn never_falls(old_count: Option<u64>, new_count: Option<u64>) -> bool {
    match (old_count, new_count) {
        (Some(a), Some(b)) => a <= b,
        (None, None) => true,
        _ => false,
    }
}

impl Progress {
    /// What a device shows at one sample, with nothing before it.
    pub open spec fn reading(d: DeviceInfoView, at: Instant) -> Progress {
        Progress {
            at,
            reads: d.diskstats_reads,
            writes: d.diskstats_writes,
            discards: d.diskstats_discards,
            flushes: d.diskstats_flushes,
            read_ms: d.diskstats_read_ms,
            write_ms: d.diskstats_write_ms,
            io_ms: d.diskstats_io_ms,
            weighted_io_ms: d.diskstats_weighted_io_ms,
            queue: d.diskstats_in_flight,
            since: None,
            samples: 1,
        }
    }

    /// Whether a sample continues this one: in time, with no counter falling
    /// and none appearing or disappearing.
    pub open spec fn continued_by(self, next: Progress, gap: Duration) -> bool {
        &&& self.at < next.at && next.at - self.at <= gap
        &&& self.read_ms <= next.read_ms && self.write_ms <= next.write_ms
        &&& self.io_ms <= next.io_ms && self.weighted_io_ms <= next.weighted_io_ms
        &&& self.reads <= next.reads && self.writes <= next.writes
        &&& never_falls(self.discards, next.discards)
        &&& never_falls(self.flushes, next.flushes)
    }

    /// Whether requests were outstanding in both samples and none completed.
    pub open spec fn stuck_until(self, next: Progress) -> bool {
        &&& self.queue > 0 && next.queue > 0
        &&& self.reads == next.reads && self.writes == next.writes
        &&& self.discards == next.discards && self.flushes == next.flushes
    }

    /// `next` with what this sample shows of the time before it.
    pub open spec fn extended(self, next: Progress, gap: Duration) -> Progress {
        if self.continued_by(next, gap) && self.stuck_until(next) {
            Progress {
                since: Some(
                    match self.since {
                        Some(t) => t,
                        None => self.at,
                    },
                ),
                samples: if self.samples < usize::MAX {
                    (self.samples + 1) as usize
                } else {
                    self.samples
                },
                ..next
            }
        } else {
            next
        }
    }

    /// How long nothing was completed, where that is long enough to tell.
    pub open spec fn stalled(self) -> Option<Duration> {
        match self.since {
            Some(t) => if since(self.at, t) >= IO_STALL_AFTER && self.samples >= 3 {
                Some(since(self.at, t))
            } else {
                None
            },
            None => None,
        }
    }
}

pub open spec fn availability(n: Option<u64>) -> Seq<char> {
    if n is Some {
        "available"@
    } else {
        "unavailable"@
    }
}

pub open spec fn stall_seen(name: Seq<char>, p: Progress, dt: Duration) -> ObservationView {
    plain(
        name + ": outstanding I/O with no observed completions for "@ + fixed(seconds(dt), 0) + "s"@,
        seq![
            "Queue depth "@ + decimal(p.queue as nat) + "; "@ + decimal(p.samples as nat)
                + " consecutive valid observations. Threshold: 30s."@,
            "Read/write completions tracked; discard accounting "@ + availability(p.discards)
                + "; flush accounting "@ + availability(p.flushes)
                + " (flushes are not tracked for partitions)."@,
        ],
        "Inspect device timeouts, controller resets and kernel logs. Samples show no observed completions, not the age or identity of a particular request."@,
    )
}

/// The evidence after a sample of the completions of a device. A sample that
/// is invalid, from the future, too old or of an absent device breaks it.
pub open spec fn progressed(
    st: DiagnosticsView,
    d: DeviceInfoView,
    key: Seq<char>,
    at: Instant,
    now: Instant,
    gap: Duration,
) -> DiagnosticsView {
    let id = "device:"@ + key + ":no-completions"@;
    if !d.diskstats_valid || at > now || since(now, at) > gap || d.allocation.online == Some(false) {
        recorded(
            DiagnosticsView { progress: without(st.progress, key), ..st },
            id,
            None,
            false,
            now,
        )
    } else {
        let p = Progress::reading(d, at);
        let before = find(st.progress, key);
        let valid = before is Some && before->0.continued_by(p, gap);
        let q = match before {
            Some(o) => o.extended(p, gap),
            None => p,
        };
        let seen = match q.stalled() {
            Some(dt) => Some(stall_seen(d.name, q, dt)),
            None => None,
        };
        recorded(
            DiagnosticsView { progress: put(st.progress, key, q), ..st },
            id,
            seen,
            valid || d.diskstats_in_flight == 0,
            now,
        )
    }
}

fn rises(a: Option<u64>, b: Option<u64>) -> (r: bool)
    ensures
        r == never_falls(a, b),
{
    match (a, b) {
        (Some(x), Some(y)) => x <= y,
        (None, None) => true,
        _ => false,
    }
}

fn same_count(a: Option<u64>, b: Option<u64>) -> (r: bool)
    ensures
        r == (a == b),
{
    match (a, b) {
        (Some(x), Some(y)) => x == y,
        (None, None) => true,
        _ => false,
    }
}

fn shown_as(n: Option<u64>) -> (r: &'static str)
    ensures
        r@ == availability(n),
{
    if n.is_some() {
        "available"
    } else {
        "unavailable"
    }
}

impl Progress {
    fn of(d: &DeviceInfo, at: Instant) -> (r: Progress)
        ensures
            r == Progress::reading(d@, at),
    {
        Progress {
            at,
            reads: d.diskstats_reads,
            writes: d.diskstats_writes,
            discards: d.diskstats_discards,
            flushes: d.diskstats_flushes,
            read_ms: d.diskstats_read_ms,
            write_ms: d.diskstats_write_ms,
            io_ms: d.diskstats_io_ms,
            weighted_io_ms: d.diskstats_weighted_io_ms,
            queue: d.diskstats_in_flight,
            since: None,
            samples: 1,
        }
    }

    fn continues(&self, next: &Progress, gap: Duration) -> (r: bool)
        ensures
            r == self.continued_by(*next, gap),
    {
        self.at < next.at && next.at - self.at <= gap && self.read_ms <= next.read_ms
            && self.write_ms <= next.write_ms && self.io_ms <= next.io_ms && self.weighted_io_ms
            <= next.weighted_io_ms && self.reads <= next.reads && self.writes <= next.writes
            && rises(self.discards, next.discards) && rises(self.flushes, next.flushes)
    }

    fn extend(&self, next: Progress, gap: Duration) -> (r: Progress)
        ensures
            r == self.extended(next, gap),
    {
        if self.continues(&next, gap) && self.queue > 0 && next.queue > 0 && self.reads
            == next.reads && self.writes == next.writes && same_count(self.discards, next.discards)
            && same_count(self.flushes, next.flushes) {
            let mut q = next;
            q.since =
            Some(
                match self.since {
                    Some(t) => t,
                    None => self.at,
                },
            );
            q.samples = if self.samples < usize::MAX {
                self.samples + 1
            } else {
                self.samples
            };
            q
        } else {
            next
        }
    }

    fn stall(&self) -> (r: Option<Duration>)
        ensures
            r == self.stalled(),
    {
        match self.since {
            Some(t) => {
                let dt = time_since(self.at, t);
                if dt >= IO_STALL_AFTER && self.samples >= 3 {
                    Some(dt)
                } else {
                    None
                }
            },
            None => None,
        }
    }
}

fn see_stall(name: &str, p: &Progress, dt: Duration) -> (r: Observation)
    ensures
        r@ == stall_seen(name@, *p, dt),
{
    let mut evidence: Vec<String> = Vec::new();
    evidence.push(
        cat5(
            "Queue depth ",
            u64_text(p.queue).as_str(),
            "; ",
            usize_text(p.samples).as_str(),
            " consecutive valid observations. Threshold: 30s.",
        ),
    );
    evidence.push(
        cat5(
            "Read/write completions tracked; discard accounting ",
            shown_as(p.discards),
            "; flush accounting ",
            shown_as(p.flushes),
            " (flushes are not tracked for partitions).",
        ),
    );
    let r = Observation::observed(
        cat4(
            name,
            ": outstanding I/O with no observed completions for ",
            fixed_text(to_seconds(dt), 0).as_str(),
            "s",
        ),
        evidence,
        "Inspect device timeouts, controller resets and kernel logs. Samples show no observed completions, not the age or identity of a particular request.",
    );
    assert(r@ =~~= stall_seen(name@, *p, dt));
    r
}

impl Diagnostics {
    pub fn io_progress(&mut self, d: &DeviceInfo, key: &str, at: Instant, now: Instant, gap: Duration)
        ensures
            final(self)@ == progressed(old(self)@, d@, key@, at, now, gap),
    {
        let id = cat3("device:", key, ":no-completions");
        let absent = match d.allocation.online {
            Some(online) => !online,
            None => false,
        };
        if !d.diskstats_valid || at > now || time_since(now, at) > gap || absent {
            self.progress.remove(key);
            self.record(id.as_str(), None, false, now);
            return ;
        }
        let p = Progress::of(d, at);
        let (q, valid) = match self.progress.get(key) {
            Some(before) => (before.extend(p, gap), before.continues(&p, gap)),
            None => (p, false),
        };
        let seen = match q.stall() {
            Some(dt) => Some(see_stall(d.name.as_str(), &q, dt)),
            None => None,
        };
        self.progress.insert(key, q);
        self.record(id.as_str(), seen, valid || d.diskstats_in_flight == 0, now);
    }
}

// ---------------------------------------------------------------- member states

pub open spec fn truth(b: bool) -> Seq<char> {
    if b {
        "true"@
    } else {
        "false"@
    }
}

pub fn truth_text(b: bool) -> (r: &'static str)
    ensures
        r@ == truth(b),
{
    if b {
        "true"
    } else {
        "false"
    }
}

pub open spec fn transition(from: (Seq<char>, bool), to: (Seq<char>, bool)) -> Seq<char> {
    "Observed transition: "@ + from.0 + " / online="@ + truth(from.1) + " \u{2192} "@ + to.0
        + " / online="@ + truth(to.1)
}

pub open spec fn state_seen(
    d: DeviceInfoView,
    key: Seq<char>,
    current: (Seq<char>, bool),
    change: Seq<char>,
) -> ObservationView {
    let label = match d.label {
        Some(l) => l,
        None => "?"@,
    };
    ObservationView {
        severity: Severity::Critical,
        confidence: Confidence::Observed,
        summary: d.name + ": member "@ + current.0 + " / online="@ + truth(current.1),
        evidence: seq![
            change,
            "Member identity "@ + key + "; label "@ + label + ". Current state "@ + current.0
                + " / online="@ + truth(current.1) + "."@,
        ],
        action: "Check why the member changed state and inspect device/kernel errors. A state transition can be administrative; it does not prove hardware failure."@,
    }
}

/// The finding of a change of state that has not been resolved.
pub open spec fn open_incident(st: DiagnosticsView, id: Seq<char>) -> Option<DiagnosticView> {
    match find(st.findings, id) {
        Some(f) => if f.status != Status::Resolved {
            Some(f)
        } else {
            None
        },
        None => None,
    }
}

/// What a member in a bad state shows: a change just seen, or one that was
/// seen and has not been resolved.
pub open spec fn state_observation(
    st: DiagnosticsView,
    d: DeviceInfoView,
    key: Seq<char>,
    current: (Seq<char>, bool),
    previous: Option<(Seq<char>, bool)>,
) -> Option<ObservationView> {
    let id = "device:"@ + key + ":state"@;
    let bad = current.0 != "rw"@ || !current.1;
    let incident = open_incident(st, id);
    let changed = previous is Some && previous->0 != current;
    if !bad {
        None
    } else if changed {
        Some(state_seen(d, key, current, transition(previous->0, current)))
    } else {
        match incident {
            Some(f) => Some(
                state_seen(
                    d,
                    key,
                    current,
                    if f.evidence.len() > 0 {
                        f.evidence[0]
                    } else {
                        ""@
                    },
                ),
            ),
            None => None,
        }
    }
}

pub open spec fn recovery_noted(evidence: Seq<Seq<char>>) -> bool {
    exists|i: int|
        0 <= i < evidence.len() && has_prefix(#[trigger] evidence[i], "Recovery observed:"@)
}

/// A finding that was resolved by a recovery says so once.
pub open spec fn with_recovery(
    st: DiagnosticsView,
    id: Seq<char>,
    current: (Seq<char>, bool),
) -> DiagnosticsView {
    match find(st.findings, id) {
        Some(f) => if f.status == Status::Resolved && !recovery_noted(f.evidence) {
            DiagnosticsView {
                findings: put(
                    st.findings,
                    id,
                    DiagnosticView {
                        evidence: f.evidence.push(
                            "Recovery observed: "@ + current.0 + " / online="@ + truth(current.1),
                        ),
                        ..f
                    },
                ),
                ..st
            }
        } else {
            st
        },
        None => st,
    }
}

/// The evidence after a sample of the state of a member. A state that was bad
/// from the first is not a change; a state that is unknown resolves nothing.
pub open spec fn state_sampled(
    st: DiagnosticsView,
    d: DeviceInfoView,
    key: Seq<char>,
    now: Instant,
) -> DiagnosticsView {
    let id = "device:"@ + key + ":state"@;
    match (d.allocation.state, d.allocation.online) {
        (Some(state), Some(online)) => {
            let current = (state, online);
            let previous = find(st.member_states, key);
            let kept = DiagnosticsView {
                member_states: put(st.member_states, key, current),
                ..st
            };
            let seen = state_observation(kept, d, key, current, previous);
            let valid = previous is Some || open_incident(kept, id) is Some;
            let after = recorded(kept, id, seen, valid, now);
            if state == "rw"@ && online {
                with_recovery(after, id, current)
            } else {
                after
            }
        },
        _ => recorded(
            DiagnosticsView { member_states: without(st.member_states, key), ..st },
            id,
            None,
            false,
            now,
        ),
    }
}

fn see_state(d: &DeviceInfo, key: &str, state: &str, online: bool, change: String) -> (r: Observation)
    ensures
        r@ == state_seen(d@, key@, (state@, online), change@),
{
    let label = match &d.label {
        Some(l) => copy(l.as_str()),
        None => copy("?"),
    };
    let mut evidence: Vec<String> = Vec::new();
    evidence.push(change);
    evidence.push(
        cat9(
            "Member identity ",
            key,
            "; label ",
            label.as_str(),
            ". Current state ",
            state,
            " / online=",
            truth_text(online),
            ".",
        ),
    );
    let mut r = Observation::observed(
        cat5(d.name.as_str(), ": member ", state, " / online=", truth_text(online)),
        evidence,
        "Check why the member changed state and inspect device/kernel errors. A state transition can be administrative; it does not prove hardware failure.",
    );
    r.severity = Severity::Critical;
    assert(r@ =~~= state_seen(d@, key@, (state@, online), change@));
    r
}

fn note_of_recovery(evidence: &Vec<String>) -> (r: bool)
    ensures
        r == recovery_noted(views(evidence@)),
{
    let ghost all = views(evidence@);
    let mut i: usize = 0;
    while i < count(evidence)
        invariant
            i <= all.len(),
            all == views(evidence@),
            forall|k: int| 0 <= k < i ==> !has_prefix(#[trigger] all[k], "Recovery observed:"@),
        decreases all.len() - i,
    {
        if starts_with(item(evidence, i), "Recovery observed:") {
            return true;
        }
        i = i + 1;
    }
    false
}

impl Diagnostics {
    fn member_state(&mut self, d: &DeviceInfo, key: &str, now: Instant)
        ensures
            final(self)@ == state_sampled(old(self)@, d@, key@, now),
    {
        broadcast use lemma_views_push;

        let id = cat3("device:", key, ":state");
        let (state, online) = match (&d.allocation.state, d.allocation.online) {
            (Some(state), Some(online)) => (copy(state.as_str()), online),
            _ => {
                self.member_states.remove(key);
                self.record(id.as_str(), None, false, now);
                return ;
            },
        };
        let ghost current = (state@, online);
        let previous = match self.member_states.get(key) {
            Some(p) => Some((copy(p.0.as_str()), p.1)),
            None => None,
        };
        self.member_states.insert(key, (copy(state.as_str()), online));
        let good = same(state.as_str(), "rw") && online;
        let incident = match self.findings.get(id.as_str()) {
            Some(f) => {
                if f.status != Status::Resolved {
                    Some(
                        if count(&f.evidence) > 0 {
                            copy(item(&f.evidence, 0))
                        } else {
                            copy("")
                        },
                    )
                } else {
                    None
                }
            },
            None => None,
        };
        let valid = previous.is_some() || incident.is_some();
        let seen = if good {
            None
        } else {
            let changed = match &previous {
                Some(p) => !(same(p.0.as_str(), state.as_str()) && p.1 == online),
                None => false,
            };
            if changed {
                match &previous {
                    Some(p) => {
                        let change = cat8(
                            "Observed transition: ",
                            p.0.as_str(),
                            " / online=",
                            truth_text(p.1),
                            " \u{2192} ",
                            state.as_str(),
                            " / online=",
                            truth_text(online),
                        );
                        Some(see_state(d, key, state.as_str(), online, change))
                    },
                    None => None,
                }
            } else {
                match incident {
                    Some(change) => Some(see_state(d, key, state.as_str(), online, change)),
                    None => None,
                }
            }
        };
        self.record(id.as_str(), seen, valid, now);
        if good {
            let noted = match self.findings.get(id.as_str()) {
                Some(f) => {
                    if f.status == Status::Resolved && !note_of_recovery(&f.evidence) {
                        let mut f = f.duplicate();
                        f.evidence.push(
                            cat4(
                                "Recovery observed: ",
                                state.as_str(),
                                " / online=",
                                truth_text(online),
                            ),
                        );
                        Some(f)
                    } else {
                        None
                    }
                },
                None => None,
            };
            if let Some(f) = noted {
                self.findings.insert(id.as_str(), f);
            }
        }
    }
}

// ---------------------------------------------------------------------- errors

pub open spec fn keys_of<V>(s: Seq<(Seq<char>, V)>) -> Seq<Seq<char>> {
    Seq::new(s.len(), |i: int| s[i].0)
}

/// The evidence after the readings of some error counters of a member, what
/// they show, and whether each continued.
pub open spec fn errors_read(
    st: DiagnosticsView,
    key: Seq<char>,
    counts: Seq<(Seq<char>, u64)>,
    now: Instant,
    gap: Duration,
) -> (DiagnosticsView, Seq<Seq<char>>, bool)
    decreases counts.len(),
{
    if counts.len() == 0 {
        (st, Seq::empty(), true)
    } else {
        let (before, texts, valid) = errors_read(st, key, counts.drop_last(), now, gap);
        let (name, n) = counts.last();
        let (after, shown) = counter_read(
            before,
            "errors:"@ + key + ":"@ + name,
            now,
            Some(n),
            None,
            gap,
        );
        match shown {
            Some(w) => (
                after,
                if w.events > 0 {
                    texts.push(w.text(name))
                } else {
                    texts
                },
                valid,
            ),
            None => (after, texts, false),
        }
    }
}

/// The evidence after a sample of the errors of a member, whether it has new
/// errors, and whether the sample could have shown them. The first counts are
/// a baseline; counters that appear or disappear break the continuity.
pub open spec fn errors_sampled(
    st: DiagnosticsView,
    d: DeviceInfoView,
    key: Seq<char>,
    now: Instant,
    gap: Duration,
) -> (DiagnosticsView, bool, bool) {
    let id = "device:"@ + key + ":errors"@;
    match d.error_counts {
        None => (
            recorded(
                DiagnosticsView { error_shapes: without(st.error_shapes, key), ..st },
                id,
                None,
                false,
                now,
            ),
            false,
            false,
        ),
        Some(counts) => {
            let shape = keys_of(counts);
            let same_shape = counts.len() > 0 && find(st.error_shapes, key) == Some(shape);
            let kept = if counts.len() > 0 {
                DiagnosticsView { error_shapes: put(st.error_shapes, key, shape), ..st }
            } else {
                st
            };
            let (read, texts, continued) = errors_read(kept, key, counts, now, gap);
            let valid = same_shape && continued;
            let seen = if texts.len() > 0 {
                Some(
                    plain(
                        d.name + ": device error counters increased"@,
                        arranged::<String, ByText>(texts),
                        "Inspect this device and its storage path. Counts are new observed bcachefs errors, not SMART totals or proof that data was lost."@,
                    ),
                )
            } else {
                None
            };
            (recorded(read, id, seen, valid, now), texts.len() > 0, valid)
        },
    }
}

fn shape_of(counts: &StrMap<u64>) -> (r: Names)
    ensures
        r@ == keys_of(counts@),
{
    let mut list: Vec<String> = Vec::new();
    let mut i: usize = 0;
    while i < counts.len()
        invariant
            i <= counts@.len(),
            list@.len() == i,
            forall|k: int| 0 <= k < i ==> (#[trigger] list@[k])@ == counts@[k].0,
        decreases counts@.len() - i,
    {
        list.push(copy(counts.key_at(i)));
        i = i + 1;
    }
    let r = Names { list };
    assert(r@ =~= keys_of(counts@));
    r
}

fn same_names(a: &Names, b: &Names) -> (r: bool)
    ensures
        r == (a@ == b@),
{
    if a.list.len() != b.list.len() {
        assert(a@.len() != b@.len());
        return false;
    }
    let mut i: usize = 0;
    while i < count(&a.list)
        invariant
            i <= a@.len() == b@.len(),
            forall|k: int| 0 <= k < i ==> #[trigger] a@[k] == b@[k],
        decreases a@.len() - i,
    {
        if !same(item(&a.list, i), item(&b.list, i)) {
            return false;
        }
        i = i + 1;
    }
    assert(a@ =~= b@);
    true
}

impl Diagnostics {
    fn read_errors(&mut self, key: &str, counts: &StrMap<u64>, now: Instant, gap: Duration) -> (r: (
        Vec<String>,
        bool,
    ))
        ensures
            (final(self)@, views(r.0@), r.1) == errors_read(old(self)@, key@, counts@, now, gap),
    {
        broadcast use lemma_views_push;

        let ghost st = self@;
        let ghost all = counts@;
        let mut texts: Vec<String> = Vec::new();
        let mut valid = true;
        let mut i: usize = 0;
        proof {
            assert(all.take(0) =~= Seq::<(Seq<char>, u64)>::empty());
            assert(views(texts@) =~= Seq::<Seq<char>>::empty());
        }
        while i < counts.len()
            invariant
                i <= all.len(),
                all == counts@,
                (self@, views(texts@), valid) == errors_read(
                    st,
                    key@,
                    all.take(i as int),
                    now,
                    gap,
                ),
            decreases all.len() - i,
        {
            proof {
                assert(all.take(i + 1).drop_last() =~= all.take(i as int));
                assert(all.take(i + 1).last() == all[i as int]);
            }
            let name = counts.key_at(i);
            let n: u64 = *counts.value_at(i);
            let full = cat4("errors:", key, ":", name);
            match self.counter(full.as_str(), now, Some(n), None, gap) {
                Some(w) => {
                    if w.events > 0 {
                        texts.push(w.describe(name));
                    }
                },
                None => {
                    valid = false;
                },
            }
            i = i + 1;
        }
        proof {
            assert(all.take(i as int) =~= all);
        }
        (texts, valid)
    }

    fn device_errors(&mut self, d: &DeviceInfo, key: &str, now: Instant, gap: Duration) -> (r: (
        bool,
        bool,
    ))
        ensures
            (final(self)@, r.0, r.1) == errors_sampled(old(self)@, d@, key@, now, gap),
    {
        let id = cat3("device:", key, ":errors");
        let counts = match &d.error_counts {
            Some(counts) => counts,
            None => {
                self.error_shapes.remove(key);
                self.record(id.as_str(), None, false, now);
                return (false, false);
            },
        };
        let mut same_shape = false;
        if !counts.is_empty() {
            let shape = shape_of(counts);
            same_shape =
            match self.error_shapes.get(key) {
                Some(before) => same_names(before, &shape),
                None => false,
            };
            self.error_shapes.insert(key, shape);
        }
        let (texts, continued) = self.read_errors(key, counts, now, gap);
        let valid = same_shape && continued;
        let has_errors = count(&texts) > 0;
        let seen = if has_errors {
            Some(
                Observation::observed(
                    cat2(d.name.as_str(), ": device error counters increased"),
                    sort::<String, ByText>(texts),
                    "Inspect this device and its storage path. Counts are new observed bcachefs errors, not SMART totals or proof that data was lost.",
                ),
            )
        } else {
            None
        };
        self.record(id.as_str(), seen, valid, now);
        (has_errors, valid)
    }
}

// --------------------------------------------------------------------- journal

/// The count of a blocked operation, where it is known.
pub open spec fn blocked_count(stats: Seq<(Seq<char>, u64, Double)>, name: Seq<char>) -> Option<u64>
    decreases stats.len(),
{
    if stats.len() == 0 {
        None
    } else if stats[0].0 == name {
        Some(stats[0].1)
    } else {
        blocked_count(stats.skip(1), name)
    }
}

pub open spec fn stat_of(stats: Seq<TimeStatFullView>, name: Seq<char>) -> Option<TimeStatFullView>
    decreases stats.len(),
{
    if stats.len() == 0 {
        None
    } else if stats[0].name == name {
        Some(stats[0])
    } else {
        stat_of(stats.skip(1), name)
    }
}

/// What the counters of the journal show.
#[derive(Clone, Copy)]
pub struct JournalEvidence {
    pub space: Option<CounterEvidence>,
    pub flight: Option<CounterEvidence>,
    pub open: Option<CounterEvidence>,
    pub buffer: Option<CounterEvidence>,
    pub allocate: Option<CounterEvidence>,
    pub flush: Option<CounterEvidence>,
    pub noflush: Option<CounterEvidence>,
    pub flush_seq: Option<CounterEvidence>,
    pub pin_btree: Option<CounterEvidence>,
    pub pin_cache: Option<CounterEvidence>,
    pub ondisk: Option<CounterEvidence>,
}

pub open spec fn blocked_read(
    st: DiagnosticsView,
    snap: FsSnapshotView,
    name: Seq<char>,
    now: Instant,
    gap: Duration,
) -> (DiagnosticsView, Option<CounterEvidence>) {
    counter_read(
        st,
        "blocked:"@ + name,
        now,
        blocked_count(snap.blocked_stats, name),
        None,
        gap,
    )
}

pub open spec fn operation_read(
    st: DiagnosticsView,
    snap: FsSnapshotView,
    name: Seq<char>,
    now: Instant,
    gap: Duration,
) -> (DiagnosticsView, Option<CounterEvidence>) {
    match stat_of(snap.all_time_stats, name) {
        Some(s) => counter_read(
            st,
            name,
            now,
            Some(s.count),
            if s.recent_valid {
                Some(s.dur_recent_ns)
            } else {
                None
            },
            gap,
        ),
        None => counter_read(st, name, now, None, None, gap),
    }
}

/// The readings of all journal counters, one after the other.
pub open spec fn journal_read(
    st: DiagnosticsView,
    snap: FsSnapshotView,
    now: Instant,
    gap: Duration,
) -> (DiagnosticsView, JournalEvidence) {
    let (s1, space) = blocked_read(st, snap, "journal_low_on_space"@, now, gap);
    let (s2, flight) = blocked_read(s1, snap, "journal_max_in_flight"@, now, gap);
    let (s3, open) = blocked_read(s2, snap, "journal_max_open"@, now, gap);
    let (s4, buffer) = blocked_read(s3, snap, "write_buffer_full"@, now, gap);
    let (s5, allocate) = blocked_read(s4, snap, "allocate"@, now, gap);
    let (s6, flush) = operation_read(s5, snap, "journal_flush_write"@, now, gap);
    let (s7, noflush) = operation_read(s6, snap, "journal_noflush_write"@, now, gap);
    let (s8, flush_seq) = operation_read(s7, snap, "journal_flush_seq"@, now, gap);
    let (s9, pin_btree) = operation_read(s8, snap, "journal_pin_flush_btree"@, now, gap);
    let (s10, pin_cache) = operation_read(s9, snap, "journal_pin_flush_key_cache"@, now, gap);
    let (s11, ondisk) = counter_read(
        s10,
        "journal_seq_ondisk"@,
        now,
        snap.journal.seq_ondisk,
        None,
        gap,
    );
    (
        s11,
        JournalEvidence {
            space,
            flight,
            open,
            buffer,
            allocate,
            flush,
            noflush,
            flush_seq,
            pin_btree,
            pin_cache,
            ondisk,
        },
    )
}

pub open spec fn happened(w: Option<CounterEvidence>) -> bool {
    w is Some && w->0.events > 0
}

pub open spec fn was_slow(w: Option<CounterEvidence>) -> bool {
    w is Some && w->0.is_slow()
}

pub open spec fn blocked_text(name: Seq<char>, w: Option<CounterEvidence>) -> Seq<char> {
    match w {
        Some(e) => e.text(name),
        None => name + ": unavailable or establishing baseline"@,
    }
}

pub open spec fn active_text(name: Seq<char>, w: Option<CounterEvidence>) -> Seq<Seq<char>> {
    if happened(w) {
        seq![w->0.text(name)]
    } else {
        Seq::empty()
    }
}

pub open spec fn sequence_text(seq_now: Option<u64>, ondisk: Option<u64>) -> Seq<char> {
    match (seq_now, ondisk) {
        (Some(a), Some(b)) => "Current journal seq "@ + decimal(a as nat) + "; on-disk seq "@
            + decimal(b as nat) + ". A snapshot difference alone is not a stall."@,
        _ => "Journal sequence information unavailable."@,
    }
}

pub open spec fn blocked_texts(j: JournalEvidence) -> Seq<Seq<char>> {
    seq![
        blocked_text("journal_low_on_space"@, j.space),
        blocked_text("journal_max_in_flight"@, j.flight),
        blocked_text("journal_max_open"@, j.open),
    ]
}

pub open spec fn operation_texts(j: JournalEvidence) -> Seq<Seq<char>> {
    active_text("journal_flush_write"@, j.flush) + active_text("journal_noflush_write"@, j.noflush)
        + active_text("journal_flush_seq"@, j.flush_seq) + active_text(
        "journal_pin_flush_btree"@,
        j.pin_btree,
    ) + active_text("journal_pin_flush_key_cache"@, j.pin_cache)
}

pub open spec fn advance_text(w: Option<CounterEvidence>) -> Seq<Seq<char>> {
    match w {
        Some(e) => seq![e.text("on-disk journal sequence advance"@)],
        None => Seq::empty(),
    }
}

pub open spec fn watermark_text(watermark: Seq<char>) -> Seq<char> {
    "Journal watermark: "@ + if watermark.len() == 0 {
        "unknown"@
    } else {
        watermark
    }
}

/// The lines of evidence on journal pressure.
pub open spec fn journal_texts(j: JournalEvidence, snap: FsSnapshotView) -> Seq<Seq<char>> {
    (blocked_texts(j) + operation_texts(j)).push(
        sequence_text(snap.journal.seq, snap.journal.seq_ondisk),
    ) + advance_text(j.ondisk) + seq![watermark_text(snap.journal_watermark)]
}

/// The kinds of journal pressure, from the most specific evidence down.
#[derive(Clone, Copy, PartialEq, Eq, Structural)]
pub enum Pressure {
    Space,
    Reclaim,
    Completion,
    Pipeline,
}

/// Which pressure the counters show. Space is said to be short only where the
/// kernel blocked for it; the causes of other pressure are possible ones.
pub open spec fn pressure_of(j: JournalEvidence) -> Option<Pressure> {
    if happened(j.space) {
        Some(Pressure::Space)
    } else if (happened(j.flight) || happened(j.open)) && (was_slow(j.pin_btree) || was_slow(
        j.pin_cache,
    )) {
        Some(Pressure::Reclaim)
    } else if happened(j.flight) && (was_slow(j.flush) || was_slow(j.noflush) || was_slow(
        j.flush_seq,
    )) {
        Some(Pressure::Completion)
    } else if happened(j.open) || happened(j.flight) {
        Some(Pressure::Pipeline)
    } else {
        None
    }
}

impl Pressure {
    pub open spec fn seen(self, evidence: Seq<Seq<char>>) -> ObservationView {
        match self {
            Pressure::Space => plain(
                "Journal-space pressure"@,
                evidence,
                "Inspect journal reclaim and allocation headroom. Entry occupancy alone is not disk journal utilization."@,
            ),
            Pressure::Reclaim => ObservationView {
                confidence: Confidence::PossibleCause,
                ..plain(
                    "Possible metadata-reclaim bottleneck affecting the journal"@,
                    evidence,
                    "Inspect btree/key-cache flushing and metadata-device latency. These events coincide; the dependency is not proven."@,
                )
            },
            Pressure::Completion => ObservationView {
                confidence: Confidence::PossibleCause,
                ..plain(
                    "Possible journal-completion bottleneck"@,
                    evidence,
                    "Inspect outstanding journal work and per-device flush latency. Enlarging the journal is not justified by in-flight blocking alone."@,
                )
            },
            Pressure::Pipeline => plain(
                "Journal-pipeline pressure"@,
                evidence,
                "Inspect outstanding journal work and its dependencies. Space exhaustion and the underlying cause require additional evidence."@,
            ),
        }
    }
}

pub open spec fn pressure_seen(j: JournalEvidence, snap: FsSnapshotView) -> Option<ObservationView> {
    match pressure_of(j) {
        Some(p) => Some(p.seen(journal_texts(j, snap))),
        None => None,
    }
}

pub open spec fn buffer_seen(w: Option<CounterEvidence>) -> Option<ObservationView> {
    if happened(w) {
        Some(
            plain(
                "Write-buffer pressure"@,
                seq![w->0.text("write_buffer_full"@)],
                "Inspect btree write-buffer flushing and metadata-device pressure; more journal flushes are not an established remedy."@,
            ),
        )
    } else {
        None
    }
}

pub open spec fn allocator_seen(w: Option<CounterEvidence>) -> Option<ObservationView> {
    if happened(w) {
        Some(
            plain(
                "Allocator blocking observed"@,
                seq![w->0.text("allocate"@)],
                "Inspect member free buckets, reserves and GC pressure in Targets [v]. Increasing the reserve cannot create physical capacity."@,
            ),
        )
    } else {
        None
    }
}

/// The share of dirty entries.
pub open spec fn occupancy(dirty: u64, all: u64) -> Double {
    quotient(whole(dirty as nat), whole(all as nat))
}

/// More than four fifths of the entries dirty. This is never called disk space.
pub open spec fn occupancy_seen(entries: Option<(u64, u64)>) -> Option<ObservationView> {
    match entries {
        Some((dirty, all)) => if all > 0 && quotient(whole(8), whole(10)).less(
            occupancy(dirty, all),
        ) {
            Some(
                plain(
                    "High journal dirty-entry occupancy"@,
                    seq![
                        decimal(dirty as nat) + "/"@ + decimal(all as nat) + " dirty entries ("@
                            + fixed(product(occupancy(dirty, all), whole(100)), 1)
                            + "%). This is not on-disk journal-space usage."@,
                    ],
                    "Use journal blocking and reclaim evidence to determine whether this occupancy is limiting progress."@,
                ),
            )
        } else {
            None
        },
        None => None,
    }
}

/// The evidence after a sample of the journal.
pub open spec fn journal_sampled(
    st: DiagnosticsView,
    snap: FsSnapshotView,
    now: Instant,
    gap: Duration,
) -> DiagnosticsView {
    let (read, j) = journal_read(st, snap, now, gap);
    let s1 = recorded(
        read,
        "journal:pressure"@,
        pressure_seen(j, snap),
        j.space is Some && j.flight is Some && j.open is Some,
        now,
    );
    let s2 = recorded(s1, "journal:write-buffer"@, buffer_seen(j.buffer), j.buffer is Some, now);
    let s3 = recorded(s2, "allocator:pressure"@, allocator_seen(j.allocate), j.allocate is Some, now);
    recorded(
        s3,
        "journal:entry-occupancy"@,
        occupancy_seen(snap.journal.entries),
        snap.journal.entries is Some,
        now,
    )
}

fn find_blocked(stats: &Vec<(String, u64, Double)>, name: &str) -> (r: Option<u64>)
    ensures
        r == blocked_count(views(stats@), name@),
{
    let ghost all = views(stats@);
    let mut i: usize = 0;
    proof {
        assert(all.skip(0) =~= all);
    }
    while i < stats.len()
        invariant
            i <= stats@.len() == all.len(),
            all == views(stats@),
            blocked_count(all, name@) == blocked_count(all.skip(i as int), name@),
        decreases all.len() - i,
    {
        proof {
            assert(all.skip(i as int).skip(1) =~= all.skip(i + 1));
            assert(all.skip(i as int)[0] == stats@[i as int]@);
        }
        if same(stats[i].0.as_str(), name) {
            return Some(stats[i].1);
        }
        i = i + 1;
    }
    None
}

fn find_stat<'a>(stats: &'a Vec<TimeStatFull>, name: &str) -> (r: Option<&'a TimeStatFull>)
    ensures
        match r {
            Some(s) => stat_of(views(stats@), name@) == Some(s@),
            None => stat_of(views(stats@), name@) is None,
        },
{
    let ghost all = views(stats@);
    let mut i: usize = 0;
    proof {
        assert(all.skip(0) =~= all);
    }
    while i < stats.len()
        invariant
            i <= stats@.len() == all.len(),
            all == views(stats@),
            stat_of(all, name@) == stat_of(all.skip(i as int), name@),
        decreases all.len() - i,
    {
        proof {
            assert(all.skip(i as int).skip(1) =~= all.skip(i + 1));
            assert(all.skip(i as int)[0] == stats@[i as int]@);
        }
        if same(stats[i].name.as_str(), name) {
            return Some(&stats[i]);
        }
        i = i + 1;
    }
    None
}

fn has_events(w: &Option<CounterEvidence>) -> (r: bool)
    ensures
        r == happened(*w),
{
    match w {
        Some(e) => e.events > 0,
        None => false,
    }
}

fn is_slow(w: &Option<CounterEvidence>) -> (r: bool)
    ensures
        r == was_slow(*w),
{
    match w {
        Some(e) => e.slow(),
        None => false,
    }
}

fn describe_blocked(name: &str, w: &Option<CounterEvidence>) -> (r: String)
    ensures
        r@ == blocked_text(name@, *w),
{
    match w {
        Some(e) => e.describe(name),
        None => cat2(name, ": unavailable or establishing baseline"),
    }
}

fn push_active(name: &str, w: &Option<CounterEvidence>, out: &mut Vec<String>)
    ensures
        views(final(out)@) == views(old(out)@) + active_text(name@, *w),
{
    broadcast use lemma_views_push;

    let ghost start = views(out@);
    if let Some(e) = w {
        if e.events > 0 {
            out.push(e.describe(name));
            assert(views(out@) =~= start + active_text(name@, *w));
            return ;
        }
    }
    assert(start + Seq::<Seq<char>>::empty() =~= start);
}

fn describe_all_blocked(j: &JournalEvidence) -> (r: Vec<String>)
    ensures
        views(r@) == blocked_texts(*j),
{
    let mut r: Vec<String> = Vec::new();
    r.push(describe_blocked("journal_low_on_space", &j.space));
    r.push(describe_blocked("journal_max_in_flight", &j.flight));
    r.push(describe_blocked("journal_max_open", &j.open));
    assert(views(r@) =~= blocked_texts(*j));
    r
}

fn push_operations(j: &JournalEvidence, out: &mut Vec<String>)
    ensures
        views(final(out)@) == views(old(out)@) + operation_texts(*j),
{
    let ghost start = views(out@);
    push_active("journal_flush_write", &j.flush, out);
    push_active("journal_noflush_write", &j.noflush, out);
    push_active("journal_flush_seq", &j.flush_seq, out);
    push_active("journal_pin_flush_btree", &j.pin_btree, out);
    push_active("journal_pin_flush_key_cache", &j.pin_cache, out);
    proof {
        let a = active_text("journal_flush_write"@, j.flush);
        let b = active_text("journal_noflush_write"@, j.noflush);
        let c = active_text("journal_flush_seq"@, j.flush_seq);
        let d = active_text("journal_pin_flush_btree"@, j.pin_btree);
        let e = active_text("journal_pin_flush_key_cache"@, j.pin_cache);
        assert(start + a + b + c + d + e =~= start + (a + b + c + d + e));
    }
}

fn describe_sequence(seq_now: Option<u64>, ondisk: Option<u64>) -> (r: String)
    ensures
        r@ == sequence_text(seq_now, ondisk),
{
    match (seq_now, ondisk) {
        (Some(a), Some(b)) => cat5(
            "Current journal seq ",
            u64_text(a).as_str(),
            "; on-disk seq ",
            u64_text(b).as_str(),
            ". A snapshot difference alone is not a stall.",
        ),
        _ => copy("Journal sequence information unavailable."),
    }
}

fn describe_watermark(watermark: &str) -> (r: String)
    ensures
        r@ == watermark_text(watermark@),
{
    if is_empty(watermark) {
        cat2("Journal watermark: ", "unknown")
    } else {
        cat2("Journal watermark: ", watermark)
    }
}

fn journal_evidence(j: &JournalEvidence, snap: &FsSnapshot) -> (r: Vec<String>)
    ensures
        views(r@) == journal_texts(*j, snap@),
{
    broadcast use lemma_views_push;

    let mut r = describe_all_blocked(j);
    push_operations(j, &mut r);
    r.push(describe_sequence(snap.journal.seq, snap.journal.seq_ondisk));
    let ghost head = views(r@);
    if let Some(w) = &j.ondisk {
        r.push(w.describe("on-disk journal sequence advance"));
    }
    assert(views(r@) =~= head + advance_text(j.ondisk));
    let last = describe_watermark(snap.journal_watermark.as_str());
    assert((head + advance_text(j.ondisk)).push(last@) =~= head + advance_text(j.ondisk) + seq![
        last@,
    ]);
    r.push(last);
    r
}

fn find_pressure(j: &JournalEvidence) -> (r: Option<Pressure>)
    ensures
        r == pressure_of(*j),
{
    if has_events(&j.space) {
        Some(Pressure::Space)
    } else if (has_events(&j.flight) || has_events(&j.open)) && (is_slow(&j.pin_btree) || is_slow(
        &j.pin_cache,
    )) {
        Some(Pressure::Reclaim)
    } else if has_events(&j.flight) && (is_slow(&j.flush) || is_slow(&j.noflush) || is_slow(
        &j.flush_seq,
    )) {
        Some(Pressure::Completion)
    } else if has_events(&j.open) || has_events(&j.flight) {
        Some(Pressure::Pipeline)
    } else {
        None
    }
}

fn see_pressure(p: Pressure, evidence: Vec<String>) -> (r: Observation)
    ensures
        r@ == p.seen(views(evidence@)),
{
    match p {
        Pressure::Space => Observation::observed(
            copy("Journal-space pressure"),
            evidence,
            "Inspect journal reclaim and allocation headroom. Entry occupancy alone is not disk journal utilization.",
        ),
        Pressure::Reclaim => {
            let mut o = Observation::observed(
                copy("Possible metadata-reclaim bottleneck affecting the journal"),
                evidence,
                "Inspect btree/key-cache flushing and metadata-device latency. These events coincide; the dependency is not proven.",
            );
            o.confidence = Confidence::PossibleCause;
            o
        },
        Pressure::Completion => {
            let mut o = Observation::observed(
                copy("Possible journal-completion bottleneck"),
                evidence,
                "Inspect outstanding journal work and per-device flush latency. Enlarging the journal is not justified by in-flight blocking alone.",
            );
            o.confidence = Confidence::PossibleCause;
            o
        },
        Pressure::Pipeline => Observation::observed(
            copy("Journal-pipeline pressure"),
            evidence,
            "Inspect outstanding journal work and its dependencies. Space exhaustion and the underlying cause require additional evidence.",
        ),
    }
}

fn see_counter(w: &Option<CounterEvidence>, name: &str, summary: &str, action: &str) -> (r: Option<
    Observation,
>)
    ensures
        opt_seen(r) == if happened(*w) {
            Some(plain(summary@, seq![w->0.text(name@)], action@))
        } else {
            None
        },
{
    match w {
        Some(e) => {
            if e.events > 0 {
                let mut evidence: Vec<String> = Vec::new();
                evidence.push(e.describe(name));
                assert(views(evidence@) =~= seq![w->0.text(name@)]);
                Some(Observation::observed(copy(summary), evidence, action))
            } else {
                None
            }
        },
        None => None,
    }
}

fn see_occupancy(entries: Option<(u64, u64)>) -> (r: Option<Observation>)
    ensures
        opt_seen(r) == occupancy_seen(entries),
{
    let (dirty, all) = match entries {
        Some(e) => e,
        None => {
            return None;
        },
    };
    if all == 0 {
        return None;
    }
    let share = Double::from_u64(dirty).over(Double::from_u64(all));
    if !Double::from_u64(8).over(Double::from_u64(10)).is_less(share) {
        return None;
    }
    let mut evidence: Vec<String> = Vec::new();
    evidence.push(
        cat6(
            u64_text(dirty).as_str(),
            "/",
            u64_text(all).as_str(),
            " dirty entries (",
            fixed_text(share.times(Double::from_u64(100)), 1).as_str(),
            "%). This is not on-disk journal-space usage.",
        ),
    );
    let r = Observation::observed(
        copy("High journal dirty-entry occupancy"),
        evidence,
        "Use journal blocking and reclaim evidence to determine whether this occupancy is limiting progress.",
    );
    assert(r@ =~~= occupancy_seen(entries)->0);
    Some(r)
}

impl Diagnostics {
    fn blocked(&mut self, snap: &FsSnapshot, name: &str, now: Instant, gap: Duration) -> (r: Option<
        CounterEvidence,
    >)
        ensures
            (final(self)@, r) == blocked_read(old(self)@, snap@, name@, now, gap),
    {
        let key = cat2("blocked:", name);
        let n = find_blocked(&snap.blocked_stats, name);
        self.counter(key.as_str(), now, n, None, gap)
    }

    fn operation(&mut self, snap: &FsSnapshot, name: &str, now: Instant, gap: Duration) -> (r: Option<
        CounterEvidence,
    >)
        ensures
            (final(self)@, r) == operation_read(old(self)@, snap@, name@, now, gap),
    {
        match find_stat(&snap.all_time_stats, name) {
            Some(s) => {
                let recent = if s.recent_valid {
                    Some(s.dur_recent_ns)
                } else {
                    None
                };
                self.counter(name, now, Some(s.count), recent, gap)
            },
            None => self.counter(name, now, None, None, gap),
        }
    }

    fn read_journal(&mut self, snap: &FsSnapshot, now: Instant, gap: Duration) -> (r: JournalEvidence)
        ensures
            (final(self)@, r) == journal_read(old(self)@, snap@, now, gap),
    {
        let space = self.blocked(snap, "journal_low_on_space", now, gap);
        let flight = self.blocked(snap, "journal_max_in_flight", now, gap);
        let open = self.blocked(snap, "journal_max_open", now, gap);
        let buffer = self.blocked(snap, "write_buffer_full", now, gap);
        let allocate = self.blocked(snap, "allocate", now, gap);
        let flush = self.operation(snap, "journal_flush_write", now, gap);
        let noflush = self.operation(snap, "journal_noflush_write", now, gap);
        let flush_seq = self.operation(snap, "journal_flush_seq", now, gap);
        let pin_btree = self.operation(snap, "journal_pin_flush_btree", now, gap);
        let pin_cache = self.operation(snap, "journal_pin_flush_key_cache", now, gap);
        let ondisk = self.counter("journal_seq_ondisk", now, snap.journal.seq_ondisk, None, gap);
        JournalEvidence {
            space,
            flight,
            open,
            buffer,
            allocate,
            flush,
            noflush,
            flush_seq,
            pin_btree,
            pin_cache,
            ondisk,
        }
    }

    pub fn journal(&mut self, snap: &FsSnapshot, now: Instant, gap: Duration)
        ensures
            final(self)@ == journal_sampled(old(self)@, snap@, now, gap),
    {
        let j = self.read_journal(snap, now, gap);
        let seen = match find_pressure(&j) {
            Some(p) => Some(see_pressure(p, journal_evidence(&j, snap))),
            None => None,
        };
        self.record(
            "journal:pressure",
            seen,
            j.space.is_some() && j.flight.is_some() && j.open.is_some(),
            now,
        );
        let buffer = see_counter(
            &j.buffer,
            "write_buffer_full",
            "Write-buffer pressure",
            "Inspect btree write-buffer flushing and metadata-device pressure; more journal flushes are not an established remedy.",
        );
        self.record("journal:write-buffer", buffer, j.buffer.is_some(), now);
        let allocate = see_counter(
            &j.allocate,
            "allocate",
            "Allocator blocking observed",
            "Inspect member free buckets, reserves and GC pressure in Targets [v]. Increasing the reserve cannot create physical capacity.",
        );
        self.record("allocator:pressure", allocate, j.allocate.is_some(), now);
        let entries = see_occupancy(snap.journal.entries);
        self.record("journal:entry-occupancy", entries, snap.journal.entries.is_some(), now);
    }
}

// ---------------------------------------------------------------------- update

/// The longest time between samples that still counts as continuous: three
/// configured intervals, within five seconds and the window.
pub open spec fn gap_of(interval: Duration) -> Duration {
    let three = if 3 * interval <= u64::MAX {
        (3 * interval) as u64
    } else {
        u64::MAX
    };
    let least = if three < 5 * SECOND {
        (5 * SECOND) as u64
    } else {
        three
    };
    if least > WINDOW {
        WINDOW
    } else {
        least
    }
}

pub fn sample_gap(interval: Duration) -> (r: Duration)
    ensures
        r == gap_of(interval),
{
    let three: u64 = match interval.checked_mul(3) {
        Some(n) => n,
        None => u64::MAX,
    };
    let least: u64 = if three < 5 * SECOND {
        5 * SECOND
    } else {
        three
    };
    if least > WINDOW {
        WINDOW
    } else {
        least
    }
}

/// A finding that went stale.
pub open spec fn staled(d: DiagnosticView, now: Instant) -> DiagnosticView {
    DiagnosticView { status: Status::Stale, status_since: now, ..d }
}

pub open spec fn all_staled(findings: Seq<(Seq<char>, DiagnosticView)>, now: Instant) -> Seq<
    (Seq<char>, DiagnosticView),
> {
    Seq::new(findings.len(), |i: int| (findings[i].0, staled(findings[i].1, now)))
}

/// The evidence at the start of an update: none of another filesystem, and
/// none that continues over a gap.
pub open spec fn started(
    st: DiagnosticsView,
    fs: Seq<char>,
    now: Instant,
    gap: Duration,
) -> DiagnosticsView {
    let own = if st.filesystem == fs {
        st
    } else {
        DiagnosticsView::blank(fs)
    };
    let broken = match own.last_update {
        Some(t) => !(t < now && now - t <= gap),
        None => false,
    };
    if broken {
        DiagnosticsView {
            filesystem: fs,
            counters: Seq::empty(),
            progress: Seq::empty(),
            member_states: Seq::empty(),
            error_shapes: Seq::empty(),
            last_update: Some(now),
            findings: all_staled(own.findings, now),
            seen: Seq::empty(),
        }
    } else {
        DiagnosticsView { last_update: Some(now), seen: Seq::empty(), ..own }
    }
}

/// Whether the samples of a filesystem are recent enough.
pub open spec fn is_fresh(snap: FsSnapshotView, now: Instant, gap: Duration) -> bool {
    match snap.collection_started_at {
        Some(at) => at <= now && now - at <= gap,
        None => false,
    }
}

/// The evidence after a sample of some devices, the names of those with new
/// errors, and whether all of them could have shown errors.
pub open spec fn devices_sampled(
    st: DiagnosticsView,
    devices: Seq<DeviceInfoView>,
    sampled_at: Option<Instant>,
    fresh: bool,
    now: Instant,
    gap: Duration,
) -> (DiagnosticsView, Seq<Seq<char>>, bool)
    decreases devices.len(),
{
    if devices.len() == 0 {
        (st, Seq::empty(), true)
    } else {
        let (before, erring, valid) = devices_sampled(
            st,
            devices.drop_last(),
            sampled_at,
            fresh,
            now,
            gap,
        );
        let d = devices.last();
        let s1 = match sampled_at {
            Some(at) => progressed(before, d, d.key(), at, now, gap),
            None => DiagnosticsView { progress: without(before.progress, d.key()), ..before },
        };
        if fresh {
            let s2 = state_sampled(s1, d, d.key(), now);
            let (s3, has_errors, could) = errors_sampled(s2, d, d.key(), now, gap);
            (
                s3,
                if has_errors {
                    erring.push(d.name)
                } else {
                    erring
                },
                valid && could,
            )
        } else {
            (s1, erring, valid)
        }
    }
}

pub open spec fn member_keys(devices: Seq<DeviceInfoView>) -> Seq<Seq<char>> {
    Seq::new(devices.len(), |i: int| devices[i].key())
}

/// The entries with one of the given keys.
pub open spec fn with_keys<V>(s: Seq<(Seq<char>, V)>, keys: Seq<Seq<char>>) -> Seq<(Seq<char>, V)>
    decreases s.len(),
{
    if s.len() == 0 {
        s
    } else if keys.contains(s.last().0) {
        with_keys(s.drop_last(), keys).push(s.last())
    } else {
        with_keys(s.drop_last(), keys)
    }
}

/// Errors on more than one member.
pub open spec fn cluster_seen(erring: Seq<Seq<char>>) -> Option<ObservationView> {
    if erring.len() >= 2 {
        Some(
            ObservationView {
                confidence: Confidence::PossibleCause,
                ..plain(
                    "Errors increased on "@ + decimal(erring.len())
                        + " members in the evidence window"@,
                    seq![
                        joined(erring, ", "@),
                        "Counter increases occurred within the last 60s of valid observations; this does not establish simultaneous failures."@,
                    ],
                    "Inspect shared power, cables, backplanes and controllers alongside individual device health."@,
                )
            },
        )
    } else {
        None
    }
}

/// The counters that were read at this moment.
pub open spec fn read_at(s: Seq<(Seq<char>, CounterWindowView)>, now: Instant) -> Seq<
    (Seq<char>, CounterWindowView),
>
    decreases s.len(),
{
    if s.len() == 0 {
        s
    } else {
        let w = s.last().1;
        if w.previous is Some && (w.previous->0).0 == now {
            read_at(s.drop_last(), now).push(s.last())
        } else {
            read_at(s.drop_last(), now)
        }
    }
}

/// A finding after an update that did not come to it.
pub open spec fn unless_seen(
    e: (Seq<char>, DiagnosticView),
    seen: Seq<(Seq<char>, bool)>,
    now: Instant,
) -> DiagnosticView {
    if !has_key(seen, e.0) && e.1.status != Status::Stale {
        staled(e.1, now)
    } else {
        e.1
    }
}

/// The findings that are kept: those that are active or were so within the
/// window. One that the update did not come to is stale.
pub open spec fn kept(
    findings: Seq<(Seq<char>, DiagnosticView)>,
    seen: Seq<(Seq<char>, bool)>,
    now: Instant,
) -> Seq<(Seq<char>, DiagnosticView)>
    decreases findings.len(),
{
    if findings.len() == 0 {
        findings
    } else {
        let rest = kept(findings.drop_last(), seen, now);
        let d = unless_seen(findings.last(), seen, now);
        if d.status == Status::Active || since(now, d.last_seen) <= WINDOW {
            rest.push((findings.last().0, d))
        } else {
            rest
        }
    }
}

/// When each finding that is not active was last seen.
pub open spec fn inactive(findings: Seq<(Seq<char>, DiagnosticView)>) -> Seq<(u64, Seq<char>)>
    decreases findings.len(),
{
    if findings.len() == 0 {
        Seq::empty()
    } else {
        let rest = inactive(findings.drop_last());
        let d = findings.last().1;
        if d.status != Status::Active {
            rest.push((d.last_seen, d.id))
        } else {
            rest
        }
    }
}

/// The most recent first.
pub struct ByRecency;

impl Rule<(u64, String)> for ByRecency {
    open spec fn before(a: (u64, Seq<char>), b: (u64, Seq<char>)) -> bool {
        a.0 > b.0
    }

    fn precedes(a: &(u64, String), b: &(u64, String)) -> (r: bool) {
        a.0 > b.0
    }
}

pub open spec fn without_all<V>(s: Seq<(Seq<char>, V)>, gone: Seq<(u64, Seq<char>)>) -> Seq<
    (Seq<char>, V),
>
    decreases gone.len(),
{
    if gone.len() == 0 {
        s
    } else {
        without(without_all(s, gone.drop_last()), gone.last().1)
    }
}

/// The findings with the oldest inactive ones removed where there are too
/// many.
pub open spec fn bounded(findings: Seq<(Seq<char>, DiagnosticView)>) -> Seq<
    (Seq<char>, DiagnosticView),
> {
    let recent = arranged::<(u64, String), ByRecency>(inactive(findings));
    if recent.len() <= MAX_RECENT_FINDINGS {
        findings
    } else {
        without_all(findings, recent.skip(MAX_RECENT_FINDINGS as int))
    }
}

/// The evidence after the devices of a sample and their errors together.
pub open spec fn members_sampled(
    st: DiagnosticsView,
    snap: FsSnapshotView,
    now: Instant,
    gap: Duration,
) -> DiagnosticsView {
    let fresh = is_fresh(snap, now, gap);
    let (s1, erring, valid) = devices_sampled(
        st,
        snap.devices,
        snap.diskstats_sampled_at,
        fresh,
        now,
        gap,
    );
    let keys = member_keys(snap.devices);
    let s2 = DiagnosticsView {
        progress: with_keys(s1.progress, keys),
        member_states: with_keys(s1.member_states, keys),
        error_shapes: with_keys(s1.error_shapes, keys),
        ..s1
    };
    recorded(
        s2,
        "devices:correlated-errors"@,
        cluster_seen(erring),
        fresh && snap.devices.len() > 0 && valid,
        now,
    )
}

/// The evidence after one sample of a filesystem, before what is old is dropped.
pub open spec fn sampled(
    st: DiagnosticsView,
    fs: Seq<char>,
    snap: FsSnapshotView,
    now: Instant,
    interval: Duration,
) -> DiagnosticsView {
    let gap = gap_of(interval);
    let s1 = members_sampled(started(st, fs, now, gap), snap, now, gap);
    if is_fresh(snap, now, gap) {
        journal_sampled(s1, snap, now, gap)
    } else {
        DiagnosticsView { member_states: Seq::empty(), error_shapes: Seq::empty(), ..s1 }
    }
}

/// All evidence after one sample of a filesystem.
pub open spec fn updated(
    st: DiagnosticsView,
    fs: Seq<char>,
    snap: FsSnapshotView,
    now: Instant,
    interval: Duration,
) -> DiagnosticsView {
    let s2 = sampled(st, fs, snap, now, interval);
    DiagnosticsView {
        counters: read_at(s2.counters, now),
        findings: bounded(kept(s2.findings, s2.seen, now)),
        ..s2
    }
}

fn retain_keys<V: View>(map: &mut StrMap<V>, keys: &Vec<String>)
    ensures
        final(map)@ == with_keys(old(map)@, views(keys@)),
{
    let ghost all = map@;
    let mut rest: StrMap<V> = StrMap::new();
    let mut out: StrMap<V> = StrMap::new();
    if map.is_empty() {
        return ;
    }
    std::mem::swap(&mut rest, map);
    let ghost mut done: int = 0;
    proof {
        assert(all.take(0) =~= Seq::<(Seq<char>, V::V)>::empty());
        assert(all.skip(0) =~= all);
    }
    while rest.len() > 0
        invariant
            0 <= done <= all.len(),
            keys_ordered(all),
            rest@ == all.skip(done),
            behind(out@, all, done),
            out@ == with_keys(all.take(done), views(keys@)),
        decreases rest@.len(),
    {
        proof {
            assert(all.take(done + 1).drop_last() =~= all.take(done));
            assert(all.take(done + 1).last() == all[done]);
            assert(all.skip(done).remove(0) =~= all.skip(done + 1));
        }
        let (key, value) = rest.remove_at(0);
        assert(behind(out@, all, done + 1));
        if holds(keys, key.as_str()) {
            out.push_entry(key, value);
            assert(behind(out@, all, done + 1));
        }
        proof {
            done = done + 1;
        }
    }
    proof {
        assert(all.take(done) =~= all);
    }
    *map = out;
}

fn retain_read(map: &mut StrMap<CounterWindow>, now: Instant)
    ensures
        final(map)@ == read_at(old(map)@, now),
{
    let ghost all = map@;
    let mut rest: StrMap<CounterWindow> = StrMap::new();
    let mut out: StrMap<CounterWindow> = StrMap::new();
    if map.is_empty() {
        return ;
    }
    std::mem::swap(&mut rest, map);
    let ghost mut done: int = 0;
    proof {
        assert(all.take(0) =~= Seq::<(Seq<char>, CounterWindowView)>::empty());
        assert(all.skip(0) =~= all);
    }
    while rest.len() > 0
        invariant
            0 <= done <= all.len(),
            keys_ordered(all),
            rest@ == all.skip(done),
            behind(out@, all, done),
            out@ == read_at(all.take(done), now),
        decreases rest@.len(),
    {
        proof {
            assert(all.take(done + 1).drop_last() =~= all.take(done));
            assert(all.take(done + 1).last() == all[done]);
            assert(all.skip(done).remove(0) =~= all.skip(done + 1));
        }
        let (key, w) = rest.remove_at(0);
        let read = match w.previous {
            Some(p) => p.0 == now,
            None => false,
        };
        assert(behind(out@, all, done + 1));
        if read {
            out.push_entry(key, w);
            assert(behind(out@, all, done + 1));
        }
        proof {
            done = done + 1;
        }
    }
    proof {
        assert(all.take(done) =~= all);
    }
    *map = out;
}

fn retain_findings(map: &mut StrMap<Diagnostic>, seen: &StrMap<bool>, now: Instant)
    ensures
        final(map)@ == kept(old(map)@, seen@, now),
{
    let ghost all = map@;
    let mut rest: StrMap<Diagnostic> = StrMap::new();
    let mut out: StrMap<Diagnostic> = StrMap::new();
    if map.is_empty() {
        return ;
    }
    std::mem::swap(&mut rest, map);
    let ghost mut done: int = 0;
    proof {
        assert(all.take(0) =~= Seq::<(Seq<char>, DiagnosticView)>::empty());
        assert(all.skip(0) =~= all);
    }
    while rest.len() > 0
        invariant
            0 <= done <= all.len(),
            keys_ordered(all),
            rest@ == all.skip(done),
            behind(out@, all, done),
            out@ == kept(all.take(done), seen@, now),
        decreases rest@.len(),
    {
        proof {
            assert(all.take(done + 1).drop_last() =~= all.take(done));
            assert(all.take(done + 1).last() == all[done]);
            assert(all.skip(done).remove(0) =~= all.skip(done + 1));
        }
        let (key, d) = rest.remove_at(0);
        let mut d = d;
        if !seen.contains_key(key.as_str()) && d.status != Status::Stale {
            d.status = Status::Stale;
            d.status_since = now;
        }
        assert(behind(out@, all, done + 1));
        if d.status == Status::Active || time_since(now, d.last_seen) <= WINDOW {
            out.push_entry(key, d);
            assert(behind(out@, all, done + 1));
        }
        proof {
            done = done + 1;
        }
    }
    proof {
        assert(all.take(done) =~= all);
    }
    *map = out;
}

fn make_stale(map: &mut StrMap<Diagnostic>, now: Instant)
    ensures
        final(map)@ == all_staled(old(map)@, now),
{
    let ghost all = map@;
    let mut i: usize = 0;
    while i < map.len()
        invariant
            i <= map@.len() == all.len(),
            forall|k: int| 0 <= k < i ==> #[trigger] map@[k] == (all[k].0, staled(all[k].1, now)),
            forall|k: int| i <= k < all.len() ==> #[trigger] map@[k] == all[k],
        decreases all.len() - i,
    {
        let mut d = map.value_at(i).duplicate();
        d.status = Status::Stale;
        d.status_since = now;
        assert(d@ == staled(all[i as int].1, now));
        map.set_at(i, d);
        i = i + 1;
    }
    assert(map@ =~= all_staled(all, now));
}

fn list_inactive(map: &StrMap<Diagnostic>) -> (r: Vec<(u64, String)>)
    ensures
        views(r@) == inactive(map@),
{
    broadcast use lemma_views_push;

    let ghost all = map@;
    let mut r: Vec<(u64, String)> = Vec::new();
    let mut i: usize = 0;
    proof {
        assert(all.take(0) =~= Seq::<(Seq<char>, DiagnosticView)>::empty());
        assert(views(r@) =~= Seq::<(u64, Seq<char>)>::empty());
    }
    while i < map.len()
        invariant
            i <= all.len(),
            all == map@,
            views(r@) == inactive(all.take(i as int)),
        decreases all.len() - i,
    {
        proof {
            assert(all.take(i + 1).drop_last() =~= all.take(i as int));
            assert(all.take(i + 1).last() == all[i as int]);
        }
        let d = map.value_at(i);
        if d.status != Status::Active {
            r.push((d.last_seen, copy(d.id.as_str())));
        }
        i = i + 1;
    }
    proof {
        assert(all.take(i as int) =~= all);
    }
    r
}

fn bound_findings(map: &mut StrMap<Diagnostic>)
    ensures
        final(map)@ == bounded(old(map)@),
{
    let recent = sort::<(u64, String), ByRecency>(list_inactive(map));
    let ghost all = views(recent@);
    let ghost start = map@;
    if count(&recent) <= MAX_RECENT_FINDINGS {
        return ;
    }
    let ghost gone = all.skip(MAX_RECENT_FINDINGS as int);
    let mut i: usize = MAX_RECENT_FINDINGS;
    proof {
        assert(gone.take(0) =~= Seq::<(u64, Seq<char>)>::empty());
    }
    while i < recent.len()
        invariant
            MAX_RECENT_FINDINGS <= i <= recent@.len() == all.len(),
            all == views(recent@),
            gone == all.skip(MAX_RECENT_FINDINGS as int),
            map@ == without_all(start, gone.take(i - MAX_RECENT_FINDINGS)),
        decreases all.len() - i,
    {
        proof {
            let k = i - MAX_RECENT_FINDINGS;
            assert(gone.take(k + 1).drop_last() =~= gone.take(k));
            assert(gone.take(k + 1).last() == all[i as int]);
            assert(all[i as int] == recent@[i as int]@);
        }
        map.remove(recent[i].1.as_str());
        i = i + 1;
    }
    proof {
        assert(gone.take(i - MAX_RECENT_FINDINGS) =~= gone);
    }
}

fn see_cluster(erring: &Vec<String>) -> (r: Option<Observation>)
    ensures
        opt_seen(r) == cluster_seen(views(erring@)),
{
    if count(erring) < 2 {
        return None;
    }
    let mut evidence: Vec<String> = Vec::new();
    evidence.push(join(erring, ", "));
    evidence.push(
        copy(
            "Counter increases occurred within the last 60s of valid observations; this does not establish simultaneous failures.",
        ),
    );
    let mut o = Observation::observed(
        cat3(
            "Errors increased on ",
            usize_text(count(erring)).as_str(),
            " members in the evidence window",
        ),
        evidence,
        "Inspect shared power, cables, backplanes and controllers alongside individual device health.",
    );
    o.confidence = Confidence::PossibleCause;
    assert(o@ =~~= cluster_seen(views(erring@))->0);
    Some(o)
}

impl Diagnostics {
    fn start(&mut self, fs: &str, now: Instant, gap: Duration)
        ensures
            final(self)@ == started(old(self)@, fs@, now, gap),
    {
        if !same(self.filesystem.as_str(), fs) {
            *self = Diagnostics::starting(fs);
        }
        self.seen.clear();
        let broken = match self.last_update {
            Some(t) => !(t < now && now - t <= gap),
            None => false,
        };
        if broken {
            self.counters.clear();
            self.progress.clear();
            self.member_states.clear();
            self.error_shapes.clear();
            make_stale(&mut self.findings, now);
        }
        self.last_update = Some(now);
    }

    fn sample_devices(&mut self, snap: &FsSnapshot, fresh: bool, now: Instant, gap: Duration) -> (r: (
        Vec<String>,
        bool,
    ))
        ensures
            (final(self)@, views(r.0@), r.1) == devices_sampled(
                old(self)@,
                snap@.devices,
                snap@.diskstats_sampled_at,
                fresh,
                now,
                gap,
            ),
    {
        broadcast use lemma_views_push;

        let ghost st = self@;
        let ghost all = snap@.devices;
        let mut erring: Vec<String> = Vec::new();
        let mut valid = true;
        let mut i: usize = 0;
        proof {
            assert(all.take(0) =~= Seq::<DeviceInfoView>::empty());
            assert(views(erring@) =~= Seq::<Seq<char>>::empty());
        }
        while i < snap.devices.len()
            invariant
                i <= snap.devices@.len() == all.len(),
                all == snap@.devices,
                (self@, views(erring@), valid) == devices_sampled(
                    st,
                    all.take(i as int),
                    snap@.diskstats_sampled_at,
                    fresh,
                    now,
                    gap,
                ),
            decreases all.len() - i,
        {
            let d = &snap.devices[i];
            proof {
                assert(all.take(i + 1).drop_last() =~= all.take(i as int));
                assert(all.take(i + 1).last() == d@);
            }
            let key = d.identity();
            match snap.diskstats_sampled_at {
                Some(at) => {
                    self.io_progress(d, key.as_str(), at, now, gap);
                },
                None => {
                    self.progress.remove(key.as_str());
                },
            }
            if fresh {
                self.member_state(d, key.as_str(), now);
                let (has_errors, could) = self.device_errors(d, key.as_str(), now, gap);
                valid = valid && could;
                if has_errors {
                    erring.push(copy(d.name.as_str()));
                }
            }
            i = i + 1;
        }
        proof {
            assert(all.take(i as int) =~= all);
        }
        (erring, valid)
    }

    fn sample_members(&mut self, snap: &FsSnapshot, fresh: bool, now: Instant, gap: Duration)
        requires
            fresh == is_fresh(snap@, now, gap),
        ensures
            final(self)@ == members_sampled(old(self)@, snap@, now, gap),
    {
        let (erring, valid) = self.sample_devices(snap, fresh, now, gap);
        let mut keys: Vec<String> = Vec::new();
        let mut i: usize = 0;
        while i < snap.devices.len()
            invariant
                i <= snap.devices@.len(),
                keys@.len() == i,
                forall|k: int| 0 <= k < i ==> (#[trigger] keys@[k])@ == snap.devices@[k]@.key(),
            decreases snap.devices@.len() - i,
        {
            keys.push(snap.devices[i].identity());
            i = i + 1;
        }
        assert(views(keys@) =~= member_keys(snap@.devices));
        retain_keys(&mut self.progress, &keys);
        retain_keys(&mut self.member_states, &keys);
        retain_keys(&mut self.error_shapes, &keys);
        let seen = see_cluster(&erring);
        self.record(
            "devices:correlated-errors",
            seen,
            fresh && snap.devices.len() > 0 && valid,
            now,
        );
    }

    /// Takes in one sample. `expected_interval` is the configured interval, not
    /// the duration of a delayed tick: a gap never counts as observation.
    pub fn update(&mut self, fs: &str, snap: &FsSnapshot, now: Instant, expected_interval: Duration)
        ensures
            final(self)@ == updated(old(self)@, fs@, snap@, now, expected_interval),
    {
        let gap = sample_gap(expected_interval);
        self.start(fs, now, gap);
        let fresh = match snap.collection_started_at {
            Some(at) => at <= now && now - at <= gap,
            None => false,
        };
        self.sample_members(snap, fresh, now, gap);
        if fresh {
            self.journal(snap, now, gap);
        } else {
            self.member_states.clear();
            self.error_shapes.clear();
        }
        retain_read(&mut self.counters, now);
        retain_findings(&mut self.findings, &self.seen, now);
        bound_findings(&mut self.findings);
    }
}

} // verus!
