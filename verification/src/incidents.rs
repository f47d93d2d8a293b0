//! What it takes for outstanding I/O to be reported, over a series of samples.

use crate::diagnostics::{
    progressed, recorded, stall_seen, DiagnosticView, DiagnosticsView, Progress, Status,
};
use crate::soundness::lemma_recorded_now;
use crate::strmap::{find, law_put_then_find, law_without_then_find, put, without};
use crate::sysfs::{DeviceInfoView, Duration, Instant};
use crate::window::since;
use vstd::prelude::*;

verus! {

/// A device as it was sampled, and when that was looked at.
pub struct DeviceSample {
    pub device: DeviceInfoView,
    pub at: Instant,
    pub now: Instant,
}

impl DeviceSample {
    /// Whether a sample shows completions: its row is complete, not from the
    /// future and not too old, and the device is not known to be absent.
    pub open spec fn usable(self, gap: Duration) -> bool {
        &&& self.device.diskstats_valid
        &&& self.at <= self.now
        &&& since(self.now, self.at) <= gap
        &&& self.device.allocation.online != Some(false)
    }

    pub open spec fn reading(self) -> Progress {
        Progress::reading(self.device, self.at)
    }
}

/// The evidence after samples of one device, one after the other.
pub open spec fn all_progressed(
    st: DiagnosticsView,
    samples: Seq<DeviceSample>,
    key: Seq<char>,
    gap: Duration,
) -> DiagnosticsView
    decreases samples.len(),
{
    if samples.len() == 0 {
        st
    } else {
        let s = samples.last();
        progressed(
            all_progressed(st, samples.drop_last(), key, gap),
            s.device,
            key,
            s.at,
            s.now,
            gap,
        )
    }
}

/// Whether a sample breaks the evidence on a device: it shows nothing, or time or
/// a counter went back, a gap passed, or a counter appeared or disappeared since
/// the last accepted sample.
pub open spec fn breaks(st: DiagnosticsView, s: DeviceSample, key: Seq<char>, gap: Duration) -> bool {
    !s.usable(gap) || match find(st.progress, key) {
        Some(before) => !before.continued_by(s.reading(), gap),
        None => true,
    }
}

/// Whether all samples from a place on show outstanding requests of which none
/// completed, each continuing the one before it.
pub open spec fn stuck_from(samples: Seq<DeviceSample>, k: int, gap: Duration) -> bool {
    &&& forall|i: int| k <= i < samples.len() ==> (#[trigger] samples[i]).usable(gap)
    &&& forall|i: int, j: int|
        k <= i && j == i + 1 && j < samples.len() ==> {
            &&& (#[trigger] samples[i]).reading().continued_by((#[trigger] samples[j]).reading(), gap)
            &&& samples[i].reading().stuck_until(samples[j].reading())
        }
}

pub open spec fn stall_id(key: Seq<char>) -> Seq<char> {
    "device:"@ + key + ":no-completions"@
}

/// Whether the progress of a device is that of the last samples from `k` on.
spec fn tracks(q: Progress, samples: Seq<DeviceSample>, k: int, gap: Duration) -> bool {
    let n = samples.len();
    &&& 0 <= k < n
    &&& stuck_from(samples, k, gap)
    &&& q == (Progress { since: q.since, samples: q.samples, ..samples[n - 1].reading() })
    &&& q.samples <= n - k
    &&& match q.since {
        Some(t) => t == samples[k].at,
        None => k == n - 1,
    }
}

/// `extended` looks at the counters only, not at what is known of the time before.
proof fn lemma_extended_like_reading(q: Progress, r: Progress, next: Progress, gap: Duration)
    requires
        q == (Progress { since: q.since, samples: q.samples, ..r }),
    ensures
        q.continued_by(next, gap) == r.continued_by(next, gap),
        q.stuck_until(next) == r.stuck_until(next),
{
}

proof fn lemma_tracked(
    st: DiagnosticsView,
    samples: Seq<DeviceSample>,
    key: Seq<char>,
    gap: Duration,
)
    requires
        samples.len() > 0,
        breaks(st, samples[0], key, gap),
    ensures
        find(all_progressed(st, samples, key, gap).progress, key) matches Some(q) ==> {
            &&& samples[samples.len() - 1].usable(gap)
            &&& exists|k: int| #[trigger] tracks(q, samples, k, gap)
        },
    decreases samples.len(),
{
    let n = samples.len() as int;
    let rest = samples.drop_last();
    let s = samples[n - 1];
    let before = all_progressed(st, rest, key, gap);
    let after = all_progressed(st, samples, key, gap);
    assert(samples.last() == s);
    let p = s.reading();
    if !s.usable(gap) {
        law_without_then_find(before.progress, key, key);
    } else {
        let found = find(before.progress, key);
        let q = match found {
            Some(o) => o.extended(p, gap),
            None => p,
        };
        law_put_then_find(before.progress, key, q, key);
        assert(find(after.progress, key) == Some(q));
        if n == 1 {
            assert(before == st);
            assert(q == p);
            assert(tracks(q, samples, 0, gap));
        } else {
            assert(rest[0] == samples[0]);
            lemma_tracked(st, rest, key, gap);
            if found is Some {
                let o = found->0;
                let k = choose|k: int| #[trigger] tracks(o, rest, k, gap);
                let r = rest[n - 2].reading();
                assert(rest[n - 2] == samples[n - 2]);
                lemma_extended_like_reading(o, r, p, gap);
                if o.continued_by(p, gap) && o.stuck_until(p) {
                    assert(stuck_from(samples, k, gap)) by {
                        assert forall|i: int| k <= i < n implies (#[trigger] samples[i]).usable(
                            gap,
                        ) by {
                            if i < n - 1 {
                                assert(rest[i] == samples[i]);
                            }
                        }
                        assert forall|i: int, j: int| k <= i && j == i + 1 && j < n implies {
                            &&& (#[trigger] samples[i]).reading().continued_by(
                                (#[trigger] samples[j]).reading(),
                                gap,
                            )
                            &&& samples[i].reading().stuck_until(samples[j].reading())
                        } by {
                            assert(rest[i] == samples[i]);
                            if j < n - 1 {
                                assert(rest[j] == samples[j]);
                            }
                        }
                    }
                    assert(rest[k] == samples[k]);
                    assert(tracks(q, samples, k, gap));
                } else {
                    assert(q == p);
                    assert(tracks(q, samples, n - 1, gap));
                }
            } else {
                assert(q == p);
                assert(tracks(q, samples, n - 1, gap));
            }
        }
    }
}

// ------------------------------------------------------------------------ laws

/// Whatever breaks the evidence on a device with outstanding requests, an invalid,
/// future or old row, an absent device, a counter that fell or one that appeared
/// or disappeared, leaves what was found stale: neither active nor resolved.
pub proof fn law_a_break_leaves_a_stall_stale(
    st: DiagnosticsView,
    s: DeviceSample,
    key: Seq<char>,
    gap: Duration,
)
    requires
        s.device.diskstats_in_flight > 0,
        breaks(st, s, key, gap),
    ensures
        find(
            progressed(st, s.device, key, s.at, s.now, gap).findings,
            stall_id(key),
        ) matches Some(f) ==> f.status == Status::Stale,
{
    let id = stall_id(key);
    let kept = if !s.usable(gap) {
        DiagnosticsView { progress: without(st.progress, key), ..st }
    } else {
        DiagnosticsView { progress: put(st.progress, key, s.reading()), ..st }
    };
    assert(progressed(st, s.device, key, s.at, s.now, gap) == recorded(
        kept,
        id,
        None,
        false,
        s.now,
    ));
    if let Some(d) = find(st.findings, id) {
        let stale = DiagnosticView {
            status: Status::Stale,
            status_since: if d.status == Status::Stale {
                d.status_since
            } else {
                s.now
            },
            ..d
        };
        law_put_then_find(st.findings, id, stale, id);
    }
}

/// After a break a stall has to be seen afresh: it is active again only once
/// three samples in a row, thirty seconds apart from the first to the last, show
/// outstanding requests and no completion, none of them from before the break.
pub proof fn law_a_stall_is_seen_afresh_after_a_break(
    st: DiagnosticsView,
    samples: Seq<DeviceSample>,
    key: Seq<char>,
    gap: Duration,
)
    requires
        samples.len() > 0,
        breaks(st, samples[0], key, gap),
    ensures
        find(all_progressed(st, samples, key, gap).findings, stall_id(key)) matches Some(f)
            && f.status == Status::Active ==> exists|k: int|
            0 <= k && k + 3 <= samples.len() && #[trigger] stuck_from(samples, k, gap) && since(
                samples[samples.len() - 1].at,
                samples[k].at,
            ) >= 30_000_000_000,
{
    let n = samples.len() as int;
    let s = samples[n - 1];
    let id = stall_id(key);
    let before = all_progressed(st, samples.drop_last(), key, gap);
    assert(samples.last() == s);
    lemma_tracked(st, samples, key, gap);
    let found = find(before.findings, id);
    if !s.usable(gap) {
        let kept = DiagnosticsView { progress: without(before.progress, key), ..before };
        lemma_recorded_now(kept, id, None, false, s.now);
    } else {
        let p = s.reading();
        let q = match find(before.progress, key) {
            Some(o) => o.extended(p, gap),
            None => p,
        };
        law_put_then_find(before.progress, key, q, key);
        let kept = DiagnosticsView { progress: put(before.progress, key, q), ..before };
        let valid = (find(before.progress, key) is Some && (find(
            before.progress,
            key,
        )->0).continued_by(p, gap)) || s.device.diskstats_in_flight == 0;
        match q.stalled() {
            Some(dt) => {
                let k = choose|k: int| #[trigger] tracks(q, samples, k, gap);
                assert(stuck_from(samples, k, gap));
            },
            None => {
                lemma_recorded_now(kept, id, None, valid, s.now);
            },
        }
    }
}

/// Whether what is known of the time before a sample does not lie after it.
pub open spec fn is_dated(p: Progress) -> bool {
    p.since matches Some(t) ==> t <= p.at
}

proof fn lemma_stuck_counts(
    st: DiagnosticsView,
    samples: Seq<DeviceSample>,
    key: Seq<char>,
    gap: Duration,
)
    requires
        samples.len() > 0,
        stuck_from(samples, 0, gap),
        find(st.progress, key) matches Some(o) ==> is_dated(o),
    ensures
        ({
            let n = samples.len();
            let found = find(all_progressed(st, samples, key, gap).progress, key);
            &&& found is Some
            &&& found->0 == (Progress {
                since: (found->0).since,
                samples: (found->0).samples,
                ..samples[n - 1].reading()
            })
            &&& (found->0).samples >= n || (found->0).samples == usize::MAX
            &&& (found->0).since matches Some(t) ==> t <= samples[0].at
            &&& n > 1 ==> (found->0).since is Some
        }),
    decreases samples.len(),
{
    let n = samples.len() as int;
    let rest = samples.drop_last();
    let s = samples[n - 1];
    let before = all_progressed(st, rest, key, gap);
    let p = s.reading();
    let found = find(before.progress, key);
    let q = match found {
        Some(o) => o.extended(p, gap),
        None => p,
    };
    assert(samples.last() == s);
    assert(s.usable(gap));
    law_put_then_find(before.progress, key, q, key);
    assert(find(all_progressed(st, samples, key, gap).progress, key) == Some(q));
    if n == 1 {
        assert(before == st);
    } else {
        assert forall|i: int| 0 <= i < rest.len() implies (#[trigger] rest[i]).usable(gap) by {
            assert(rest[i] == samples[i]);
        }
        assert forall|i: int, j: int| 0 <= i && j == i + 1 && j < rest.len() implies {
            &&& (#[trigger] rest[i]).reading().continued_by((#[trigger] rest[j]).reading(), gap)
            &&& rest[i].reading().stuck_until(rest[j].reading())
        } by {
            assert(rest[i] == samples[i] && rest[j] == samples[j]);
        }
        lemma_stuck_counts(st, rest, key, gap);
        let o = found->0;
        let r = rest[n - 2].reading();
        assert(rest[n - 2] == samples[n - 2] && rest[0] == samples[0]);
        assert(samples[n - 2].reading().continued_by(samples[n - 1].reading(), gap));
        lemma_extended_like_reading(o, r, p, gap);
        if n == 2 {
            assert(o.at == samples[0].at);
        }
    }
}

/// A stall is reported: three samples in a row, thirty seconds apart from the first
/// to the last, that show outstanding requests and no completion make it active,
/// whatever was before.
pub proof fn law_a_stall_is_reported(
    st: DiagnosticsView,
    samples: Seq<DeviceSample>,
    key: Seq<char>,
    gap: Duration,
)
    requires
        find(st.progress, key) matches Some(o) ==> is_dated(o),
        samples.len() >= 3,
        stuck_from(samples, 0, gap),
        since(samples[samples.len() - 1].at, samples[0].at) >= 30_000_000_000,
    ensures
        find(all_progressed(st, samples, key, gap).findings, stall_id(key)) matches Some(f)
            && f.status == Status::Active && f.last_seen == samples[samples.len() - 1].now,
{
    let n = samples.len() as int;
    let s = samples[n - 1];
    let id = stall_id(key);
    let before = all_progressed(st, samples.drop_last(), key, gap);
    assert(samples.last() == s);
    assert(s.usable(gap));
    lemma_stuck_counts(st, samples, key, gap);
    let p = s.reading();
    let q = match find(before.progress, key) {
        Some(o) => o.extended(p, gap),
        None => p,
    };
    law_put_then_find(before.progress, key, q, key);
    assert(find(all_progressed(st, samples, key, gap).progress, key) == Some(q));
    assert(since(s.at, q.since->0) >= since(s.at, samples[0].at));
    assert(q.stalled() is Some);
    let kept = DiagnosticsView { progress: put(before.progress, key, q), ..before };
    let valid = (find(before.progress, key) is Some && (find(before.progress, key)->0).continued_by(
        p,
        gap,
    )) || s.device.diskstats_in_flight == 0;
    lemma_recorded_now(kept, id, Some(stall_seen(s.device.name, q, q.stalled()->0)), valid, s.now);
}

/// Progress resolves a stall: a usable sample that continues the last one and shows
/// a completion of any visible kind, or one that shows no outstanding request.
pub proof fn law_progress_resolves_a_stall(
    st: DiagnosticsView,
    s: DeviceSample,
    key: Seq<char>,
    gap: Duration,
)
    requires
        s.usable(gap),
        s.device.diskstats_in_flight == 0 || (find(st.progress, key) matches Some(o)
            && o.continued_by(s.reading(), gap) && !o.stuck_until(s.reading())),
        find(st.findings, stall_id(key)) is Some,
    ensures
        find(
            progressed(st, s.device, key, s.at, s.now, gap).findings,
            stall_id(key),
        ) matches Some(f) && f.status == Status::Resolved,
{
    let p = s.reading();
    let q = match find(st.progress, key) {
        Some(o) => o.extended(p, gap),
        None => p,
    };
    assert(q == p);
    lemma_recorded_now(
        DiagnosticsView { progress: put(st.progress, key, p), ..st },
        stall_id(key),
        None,
        true,
        s.now,
    );
}

} // verus!
