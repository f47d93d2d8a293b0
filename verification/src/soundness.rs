//! What every update of the diagnostics keeps.

use crate::diagnostics::{
    all_staled, bounded, cluster_seen, counter_read, devices_sampled, errors_read, errors_sampled,
    gap_of, happened, inactive, is_fresh, journal_read, journal_sampled, journal_texts, kept,
    member_keys, members_sampled, open_incident, pressure_of, pressure_seen, progressed, read_at,
    recorded, recovery_noted, sampled, started, state_sampled, truth, unless_seen, updated,
    was_slow, with_keys, with_recovery, without_all, ByRecency, Confidence, DiagnosticView,
    DiagnosticsView, JournalEvidence, ObservationView, Pressure, Progress, Status,
    MAX_RECENT_FINDINGS,
};
use crate::order::{
    arranged, is_ranking, law_arranged_is_ordered, law_arranged_keeps_all, law_text_order,
    text_before, Rule,
};
use crate::strmap::{
    find, keys_ordered, law_put_keeps_order, law_put_then_find, lemma_without_entries, put, without,
};
use crate::sysfs::{DeviceInfoView, Duration, FsSnapshotView, Instant};
use crate::text::{has_prefix, has_suffix};
use crate::window::{
    law_observing_keeps_windows_valid, law_window_is_bounded, observed, since, CounterWindowView,
    WINDOW,
};
use vstd::prelude::*;

verus! {

/// Whether the windows are valid, and the findings stand in order under their
/// own names.
pub open spec fn sound(st: DiagnosticsView) -> bool {
    &&& windows_valid(st.counters)
    &&& well_filed(st.findings)
}

pub open spec fn windows_valid(s: Seq<(Seq<char>, CounterWindowView)>) -> bool {
    forall|i: int| 0 <= i < s.len() ==> (#[trigger] s[i]).1.valid()
}

pub open spec fn well_filed(s: Seq<(Seq<char>, DiagnosticView)>) -> bool {
    &&& keys_ordered(s)
    &&& forall|i: int| 0 <= i < s.len() ==> (#[trigger] s[i]).1.id == s[i].0
}

// ---------------------------------------------------------------------- lemmas

/// Every entry after setting a key is the new one or an old one.
pub(crate) proof fn lemma_put_entries<V>(s: Seq<(Seq<char>, V)>, key: Seq<char>, value: V, i: int)
    requires
        0 <= i < put(s, key, value).len(),
    ensures
        put(s, key, value)[i] == (key, value) || s.contains(put(s, key, value)[i]),
    decreases s.len(),
{
    let p = put(s, key, value);
    if s.len() == 0 {
    } else if s[0].0 == key {
        if i > 0 {
            assert(p[i] == s[i]);
        }
    } else if text_before(key, s[0].0) {
        if i > 0 {
            assert(p[i] == s[i - 1]);
        }
    } else {
        if i == 0 {
            assert(p[0] == s[0]);
        } else {
            let t = s.skip(1);
            lemma_put_entries(t, key, value, i - 1);
            let q = put(t, key, value);
            assert(p[i] == q[i - 1]);
            if t.contains(q[i - 1]) {
                let k = choose|k: int| 0 <= k < t.len() && t[k] == q[i - 1];
                assert(s[k + 1] == p[i]);
            }
        }
    }
}

pub(crate) proof fn lemma_found<V>(s: Seq<(Seq<char>, V)>, key: Seq<char>)
    requires
        find(s, key) is Some,
    ensures
        s.contains((key, find(s, key)->0)),
    decreases s.len(),
{
    if s.len() > 0 {
        if s[0].0 == key {
            assert(s[0] == (key, s[0].1));
        } else {
            let t = s.skip(1);
            lemma_found(t, key);
            let k = choose|k: int| 0 <= k < t.len() && t[k] == (key, find(t, key)->0);
            assert(s[k + 1] == t[k]);
        }
    }
}

proof fn lemma_counter_sound(
    st: DiagnosticsView,
    key: Seq<char>,
    now: Instant,
    count: Option<u64>,
    recent_ns: Option<u64>,
    gap: Duration,
)
    requires
        sound(st),
    ensures
        sound(counter_read(st, key, now, count, recent_ns, gap).0),
{
    let r = counter_read(st, key, now, count, recent_ns, gap).0;
    match count {
        Some(n) => {
            let w = match find(st.counters, key) {
                Some(w) => w,
                None => CounterWindowView::blank(),
            };
            if find(st.counters, key) is Some {
                lemma_found(st.counters, key);
                let k = choose|k: int|
                    0 <= k < st.counters.len() && st.counters[k] == (key, w);
                assert(st.counters[k].1.valid());
            }
            law_observing_keeps_windows_valid(w, now, n, recent_ns, gap);
            let next = observed(w, now, n, recent_ns, gap).0;
            assert forall|i: int| 0 <= i < r.counters.len() implies (
            #[trigger] r.counters[i]).1.valid() by {
                lemma_put_entries(st.counters, key, next, i);
                if st.counters.contains(r.counters[i]) {
                    let k = choose|k: int|
                        0 <= k < st.counters.len() && st.counters[k] == r.counters[i];
                    assert(st.counters[k].1.valid());
                }
            }
        },
        None => {
            lemma_without_entries(st.counters, key);
            assert forall|i: int| 0 <= i < r.counters.len() implies (
            #[trigger] r.counters[i]).1.valid() by {
                assert(st.counters.contains(r.counters[i]));
                let k = choose|k: int|
                    0 <= k < st.counters.len() && st.counters[k] == r.counters[i];
                assert(st.counters[k].1.valid());
            }
        },
    }
}

proof fn lemma_filed(s: Seq<(Seq<char>, DiagnosticView)>, id: Seq<char>, d: DiagnosticView)
    requires
        well_filed(s),
        d.id == id,
    ensures
        well_filed(put(s, id, d)),
{
    law_put_keeps_order(s, id, d);
    let p = put(s, id, d);
    assert forall|i: int| 0 <= i < p.len() implies (#[trigger] p[i]).1.id == p[i].0 by {
        lemma_put_entries(s, id, d, i);
        if s.contains(p[i]) {
            let k = choose|k: int| 0 <= k < s.len() && s[k] == p[i];
            assert(s[k].1.id == s[k].0);
        }
    }
}

proof fn lemma_found_filed(s: Seq<(Seq<char>, DiagnosticView)>, id: Seq<char>)
    requires
        well_filed(s),
        find(s, id) is Some,
    ensures
        find(s, id)->0.id == id,
{
    lemma_found(s, id);
    let k = choose|k: int| 0 <= k < s.len() && s[k] == (id, find(s, id)->0);
    assert(s[k].1.id == s[k].0);
}

proof fn lemma_recorded_sound(
    st: DiagnosticsView,
    id: Seq<char>,
    observation: Option<ObservationView>,
    valid: bool,
    now: Instant,
)
    requires
        sound(st),
    ensures
        sound(recorded(st, id, observation, valid, now)),
{
    let r = recorded(st, id, observation, valid, now);
    if observation is Some {
        let d = find(r.findings, id);
        let first = match find(st.findings, id) {
            Some(d) => if d.status == Status::Active {
                d.first_seen
            } else {
                now
            },
            None => now,
        };
        let o = observation->0;
        lemma_filed(
            st.findings,
            id,
            DiagnosticView {
                id,
                severity: o.severity,
                confidence: o.confidence,
                summary: o.summary,
                evidence: o.evidence,
                action: o.action,
                criteria: ""@,
                first_seen: first,
                last_seen: now,
                status_since: first,
                status: Status::Active,
            },
        );
    } else if find(st.findings, id) is Some {
        lemma_found_filed(st.findings, id);
        let d = find(st.findings, id)->0;
        let status = if valid {
            Status::Resolved
        } else {
            Status::Stale
        };
        let t = if status == d.status {
            d.status_since
        } else {
            now
        };
        lemma_filed(st.findings, id, DiagnosticView { status, status_since: t, ..d });
    }
}

proof fn lemma_progressed_sound(
    st: DiagnosticsView,
    d: DeviceInfoView,
    key: Seq<char>,
    at: Instant,
    now: Instant,
    gap: Duration,
)
    requires
        sound(st),
    ensures
        sound(progressed(st, d, key, at, now, gap)),
{
    let id = "device:"@ + key + ":no-completions"@;
    if !d.diskstats_valid || at > now || since(now, at) > gap || d.allocation.online == Some(false) {
        lemma_recorded_sound(
            DiagnosticsView { progress: without(st.progress, key), ..st },
            id,
            None,
            false,
            now,
        );
    } else {
        let p = Progress::reading(d, at);
        let before = find(st.progress, key);
        let valid = before is Some && before->0.continued_by(p, gap);
        let q = match before {
            Some(o) => o.extended(p, gap),
            None => p,
        };
        let seen = match q.stalled() {
            Some(dt) => Some(crate::diagnostics::stall_seen(d.name, q, dt)),
            None => None,
        };
        lemma_recorded_sound(
            DiagnosticsView { progress: put(st.progress, key, q), ..st },
            id,
            seen,
            valid || d.diskstats_in_flight == 0,
            now,
        );
    }
}

proof fn lemma_recovery_sound(st: DiagnosticsView, id: Seq<char>, current: (Seq<char>, bool))
    requires
        sound(st),
    ensures
        sound(with_recovery(st, id, current)),
{
    if find(st.findings, id) is Some {
        lemma_found_filed(st.findings, id);
        let f = find(st.findings, id)->0;
        lemma_filed(
            st.findings,
            id,
            DiagnosticView {
                evidence: f.evidence.push(
                    "Recovery observed: "@ + current.0 + " / online="@
                        + crate::diagnostics::truth(current.1),
                ),
                ..f
            },
        );
    }
}

proof fn lemma_state_sound(st: DiagnosticsView, d: DeviceInfoView, key: Seq<char>, now: Instant)
    requires
        sound(st),
    ensures
        sound(state_sampled(st, d, key, now)),
{
    let id = "device:"@ + key + ":state"@;
    match (d.allocation.state, d.allocation.online) {
        (Some(state), Some(online)) => {
            let current = (state, online);
            let previous = find(st.member_states, key);
            let k = DiagnosticsView { member_states: put(st.member_states, key, current), ..st };
            let seen = crate::diagnostics::state_observation(k, d, key, current, previous);
            let valid = previous is Some || crate::diagnostics::open_incident(k, id) is Some;
            lemma_recorded_sound(k, id, seen, valid, now);
            lemma_recovery_sound(recorded(k, id, seen, valid, now), id, current);
        },
        _ => {
            lemma_recorded_sound(
                DiagnosticsView { member_states: without(st.member_states, key), ..st },
                id,
                None,
                false,
                now,
            );
        },
    }
}

proof fn lemma_errors_read_sound(
    st: DiagnosticsView,
    key: Seq<char>,
    counts: Seq<(Seq<char>, u64)>,
    now: Instant,
    gap: Duration,
)
    requires
        sound(st),
    ensures
        sound(errors_read(st, key, counts, now, gap).0),
    decreases counts.len(),
{
    if counts.len() > 0 {
        lemma_errors_read_sound(st, key, counts.drop_last(), now, gap);
        let before = errors_read(st, key, counts.drop_last(), now, gap).0;
        let (name, n) = counts.last();
        lemma_counter_sound(before, "errors:"@ + key + ":"@ + name, now, Some(n), None, gap);
    }
}

proof fn lemma_errors_sound(
    st: DiagnosticsView,
    d: DeviceInfoView,
    key: Seq<char>,
    now: Instant,
    gap: Duration,
)
    requires
        sound(st),
    ensures
        sound(errors_sampled(st, d, key, now, gap).0),
{
    let id = "device:"@ + key + ":errors"@;
    match d.error_counts {
        None => {
            lemma_recorded_sound(
                DiagnosticsView { error_shapes: without(st.error_shapes, key), ..st },
                id,
                None,
                false,
                now,
            );
        },
        Some(counts) => {
            let shape = crate::diagnostics::keys_of(counts);
            let k = if counts.len() > 0 {
                DiagnosticsView { error_shapes: put(st.error_shapes, key, shape), ..st }
            } else {
                st
            };
            lemma_errors_read_sound(k, key, counts, now, gap);
            let read = errors_read(k, key, counts, now, gap).0;
            assert forall|seen: Option<ObservationView>, valid: bool|
                sound(#[trigger] recorded(read, id, seen, valid, now)) by {
                lemma_recorded_sound(read, id, seen, valid, now);
            }
        },
    }
}

proof fn lemma_devices_sound(
    st: DiagnosticsView,
    devices: Seq<DeviceInfoView>,
    sampled_at: Option<Instant>,
    fresh: bool,
    now: Instant,
    gap: Duration,
)
    requires
        sound(st),
    ensures
        sound(devices_sampled(st, devices, sampled_at, fresh, now, gap).0),
    decreases devices.len(),
{
    if devices.len() > 0 {
        lemma_devices_sound(st, devices.drop_last(), sampled_at, fresh, now, gap);
        let before = devices_sampled(st, devices.drop_last(), sampled_at, fresh, now, gap).0;
        let d = devices.last();
        let s1 = match sampled_at {
            Some(at) => progressed(before, d, d.key(), at, now, gap),
            None => DiagnosticsView { progress: without(before.progress, d.key()), ..before },
        };
        if sampled_at is Some {
            lemma_progressed_sound(before, d, d.key(), sampled_at->0, now, gap);
        }
        lemma_state_sound(s1, d, d.key(), now);
        lemma_errors_sound(state_sampled(s1, d, d.key(), now), d, d.key(), now, gap);
    }
}

proof fn lemma_blocked_sound(
    st: DiagnosticsView,
    snap: FsSnapshotView,
    name: Seq<char>,
    now: Instant,
    gap: Duration,
)
    requires
        sound(st),
    ensures
        sound(crate::diagnostics::blocked_read(st, snap, name, now, gap).0),
        sound(crate::diagnostics::operation_read(st, snap, name, now, gap).0),
{
    lemma_counter_sound(
        st,
        "blocked:"@ + name,
        now,
        crate::diagnostics::blocked_count(snap.blocked_stats, name),
        None,
        gap,
    );
    match crate::diagnostics::stat_of(snap.all_time_stats, name) {
        Some(s) => {
            lemma_counter_sound(
                st,
                name,
                now,
                Some(s.count),
                if s.recent_valid {
                    Some(s.dur_recent_ns)
                } else {
                    None
                },
                gap,
            );
        },
        None => {
            lemma_counter_sound(st, name, now, None, None, gap);
        },
    }
}

proof fn lemma_journal_read_sound(
    st: DiagnosticsView,
    snap: FsSnapshotView,
    now: Instant,
    gap: Duration,
)
    requires
        sound(st),
    ensures
        sound(journal_read(st, snap, now, gap).0),
{
    assert forall|s: DiagnosticsView, name: Seq<char>| sound(s) implies sound(
        #[trigger] crate::diagnostics::blocked_read(s, snap, name, now, gap).0,
    ) by {
        lemma_blocked_sound(s, snap, name, now, gap);
    }
    assert forall|s: DiagnosticsView, name: Seq<char>| sound(s) implies sound(
        #[trigger] crate::diagnostics::operation_read(s, snap, name, now, gap).0,
    ) by {
        lemma_blocked_sound(s, snap, name, now, gap);
    }
    assert forall|s: DiagnosticsView| sound(s) implies sound(
        #[trigger] counter_read(
            s,
            "journal_seq_ondisk"@,
            now,
            snap.journal.seq_ondisk,
            None,
            gap,
        ).0,
    ) by {
        lemma_counter_sound(s, "journal_seq_ondisk"@, now, snap.journal.seq_ondisk, None, gap);
    }
}

proof fn lemma_journal_sound(st: DiagnosticsView, snap: FsSnapshotView, now: Instant, gap: Duration)
    requires
        sound(st),
    ensures
        sound(journal_sampled(st, snap, now, gap)),
{
    lemma_journal_read_sound(st, snap, now, gap);
    assert forall|s: DiagnosticsView, id: Seq<char>, seen: Option<ObservationView>, valid: bool|
        sound(s) implies sound(#[trigger] recorded(s, id, seen, valid, now)) by {
        lemma_recorded_sound(s, id, seen, valid, now);
    }
}

proof fn lemma_kept(
    findings: Seq<(Seq<char>, DiagnosticView)>,
    seen: Seq<(Seq<char>, bool)>,
    now: Instant,
)
    requires
        well_filed(findings),
    ensures
        well_filed(kept(findings, seen, now)),
        forall|i: int|
            #![trigger kept(findings, seen, now)[i]]
            0 <= i < kept(findings, seen, now).len() ==> {
                let d = kept(findings, seen, now)[i].1;
                d.status == Status::Active || since(now, d.last_seen) <= WINDOW
            },
        forall|i: int|
            #![trigger kept(findings, seen, now)[i]]
            0 <= i < kept(findings, seen, now).len() ==> exists|k: int|
                0 <= k < findings.len() && findings[k].0 == kept(findings, seen, now)[i].0,
    decreases findings.len(),
{
    if findings.len() > 0 {
        let rest = findings.drop_last();
        assert(well_filed(rest)) by {
            assert forall|i: int| 0 <= i < rest.len() implies (#[trigger] rest[i]).1.id
                == rest[i].0 by {
                assert(rest[i] == findings[i]);
            }
            assert forall|i: int, j: int| 0 <= i < j < rest.len() implies text_before(
                #[trigger] rest[i].0,
                #[trigger] rest[j].0,
            ) by {
                assert(rest[i] == findings[i] && rest[j] == findings[j]);
            }
        }
        lemma_kept(rest, seen, now);
        let a = kept(rest, seen, now);
        let k = kept(findings, seen, now);
        let n = findings.len() - 1;
        assert(findings[n].1.id == findings[n].0);
        assert forall|i: int| #![trigger k[i]] 0 <= i < k.len() implies exists|q: int|
            0 <= q < findings.len() && findings[q].0 == k[i].0 by {
            if i < a.len() {
                assert(k[i] == a[i]);
                let q = choose|q: int| 0 <= q < rest.len() && rest[q].0 == a[i].0;
                assert(findings[q].0 == k[i].0);
            } else {
                assert(findings[n].0 == k[i].0);
            }
        }
        assert forall|i: int, j: int| 0 <= i < j < k.len() implies text_before(
            #[trigger] k[i].0,
            #[trigger] k[j].0,
        ) by {
            assert(k[i] == a[i]);
            if j < a.len() {
                assert(k[j] == a[j]);
            } else {
                let q = choose|q: int| 0 <= q < rest.len() && rest[q].0 == a[i].0;
                assert(rest[q] == findings[q]);
                assert(text_before(findings[q].0, findings[n].0));
            }
        }
        assert forall|i: int| 0 <= i < k.len() implies (#[trigger] k[i]).1.id == k[i].0 by {
            if i < a.len() {
                assert(k[i] == a[i]);
            }
        }
        assert forall|i: int| #![trigger k[i]] 0 <= i < k.len() implies {
            let d = k[i].1;
            d.status == Status::Active || since(now, d.last_seen) <= WINDOW
        } by {
            if i < a.len() {
                assert(k[i] == a[i]);
            }
        }
    }
}

proof fn lemma_without_all(s: Seq<(Seq<char>, DiagnosticView)>, gone: Seq<(u64, Seq<char>)>)
    requires
        well_filed(s),
    ensures
        well_filed(without_all(s, gone)),
        forall|i: int|
            0 <= i < without_all(s, gone).len() ==> s.contains(#[trigger] without_all(s, gone)[i]),
        forall|i: int, g: int|
            0 <= i < without_all(s, gone).len() && 0 <= g < gone.len() ==> (
            #[trigger] without_all(s, gone)[i]).0 != (#[trigger] gone[g]).1,
    decreases gone.len(),
{
    if gone.len() > 0 {
        let less = gone.drop_last();
        lemma_without_all(s, less);
        let a = without_all(s, less);
        let w = without_all(s, gone);
        lemma_without_entries(a, gone.last().1);
        assert forall|i: int| 0 <= i < w.len() implies s.contains(#[trigger] w[i]) by {
            assert(a.contains(w[i]));
            let k = choose|k: int| 0 <= k < a.len() && a[k] == w[i];
            assert(s.contains(a[k]));
        }
        assert forall|i: int| 0 <= i < w.len() implies (#[trigger] w[i]).1.id == w[i].0 by {
            assert(a.contains(w[i]));
            let k = choose|k: int| 0 <= k < a.len() && a[k] == w[i];
            assert(a[k].1.id == a[k].0);
        }
        assert forall|i: int, g: int| 0 <= i < w.len() && 0 <= g < gone.len() implies (
        #[trigger] w[i]).0 != (#[trigger] gone[g]).1 by {
            assert(a.contains(w[i]));
            let k = choose|k: int| 0 <= k < a.len() && a[k] == w[i];
            if g < less.len() {
                assert(less[g] == gone[g]);
                assert(a[k].0 != less[g].1);
            }
        }
    } else {
        assert forall|i: int| 0 <= i < s.len() implies s.contains(#[trigger] s[i]) by {}
    }
}

/// Whether an element of the list of inactive findings stands for an entry.
spec fn stands_for(s: Seq<(Seq<char>, DiagnosticView)>, k: int, e: (u64, Seq<char>)) -> bool {
    0 <= k < s.len() && s[k].1.status != Status::Active && e == (s[k].1.last_seen, s[k].0)
}

proof fn lemma_part_filed(s: Seq<(Seq<char>, DiagnosticView)>)
    requires
        well_filed(s),
        s.len() > 0,
    ensures
        well_filed(s.drop_last()),
{
    let rest = s.drop_last();
    assert forall|i: int| 0 <= i < rest.len() implies (#[trigger] rest[i]).1.id == rest[i].0 by {
        assert(rest[i] == s[i]);
    }
    assert forall|i: int, j: int| 0 <= i < j < rest.len() implies text_before(
        #[trigger] rest[i].0,
        #[trigger] rest[j].0,
    ) by {
        assert(rest[i] == s[i] && rest[j] == s[j]);
    }
}

/// The entry that an element of the list stands for.
proof fn lemma_inactive_entry(s: Seq<(Seq<char>, DiagnosticView)>, i: int) -> (k: int)
    requires
        well_filed(s),
        0 <= i < inactive(s).len(),
    ensures
        stands_for(s, k, inactive(s)[i]),
    decreases s.len(),
{
    let rest = s.drop_last();
    let n = s.len() - 1;
    lemma_part_filed(s);
    let a = inactive(rest);
    assert(s[n].1.id == s[n].0);
    if i < a.len() {
        let k = lemma_inactive_entry(rest, i);
        assert(inactive(s)[i] == a[i]);
        assert(s[k] == rest[k]);
        k
    } else {
        n
    }
}

/// What the list of inactive findings holds.
proof fn lemma_inactive(s: Seq<(Seq<char>, DiagnosticView)>)
    requires
        well_filed(s),
    ensures
        forall|k: int|
            0 <= k < s.len() && (#[trigger] s[k]).1.status != Status::Active ==> inactive(
                s,
            ).contains((s[k].1.last_seen, s[k].0)),
        forall|i: int, j: int|
            0 <= i < j < inactive(s).len() ==> (#[trigger] inactive(s)[i]).1 != (
            #[trigger] inactive(s)[j]).1,
    decreases s.len(),
{
    if s.len() > 0 {
        let rest = s.drop_last();
        let n = s.len() - 1;
        lemma_part_filed(s);
        lemma_inactive(rest);
        let a = inactive(rest);
        let l = inactive(s);
        assert(s[n].1.id == s[n].0);
        assert forall|k: int| 0 <= k < s.len() && (#[trigger] s[k]).1.status
            != Status::Active implies l.contains((s[k].1.last_seen, s[k].0)) by {
            if k < n {
                assert(rest[k] == s[k]);
                let i = choose|i: int|
                    0 <= i < a.len() && a[i] == (rest[k].1.last_seen, rest[k].0);
                assert(l[i] == a[i]);
            } else {
                assert(l[l.len() - 1] == (s[n].1.last_seen, s[n].0));
            }
        }
        assert forall|i: int, j: int| 0 <= i < j < l.len() implies (#[trigger] l[i]).1 != (
        #[trigger] l[j]).1 by {
            assert(l[i] == a[i]);
            if j < a.len() {
                assert(l[j] == a[j]);
            } else {
                let k = lemma_inactive_entry(rest, i);
                assert(rest[k] == s[k]);
                assert(text_before(s[k].0, s[n].0));
                law_text_order(s[k].0, s[n].0);
            }
        }
    }
}

// ------------------------------------------------------------------------ laws

/// However many diagnostics end, only a bounded number of inactive findings is
/// kept.
proof fn lemma_inactive_bounded(findings: Seq<(Seq<char>, DiagnosticView)>)
    requires
        well_filed(findings),
    ensures
        well_filed(bounded(findings)),
        inactive(bounded(findings)).len() <= MAX_RECENT_FINDINGS,
{
    let all = inactive(findings);
    let recent = arranged::<(u64, String), ByRecency>(all);
    law_arranged_keeps_all::<(u64, String), ByRecency>(all);
    let max = MAX_RECENT_FINDINGS as int;
    if recent.len() > max {
        let gone = recent.skip(max);
        let head = recent.take(max);
        lemma_without_all(findings, gone);
        let b = bounded(findings);
        lemma_inactive(findings);
        lemma_inactive(b);
        let l = inactive(b);
        let ids = l.map_values(|e: (u64, Seq<char>)| e.1);
        let first = head.map_values(|e: (u64, Seq<char>)| e.1);
        assert(ids.no_duplicates()) by {
            assert forall|i: int, j: int| 0 <= i < ids.len() && 0 <= j < ids.len() && i
                != j implies ids[i] != ids[j] by {
                if i < j {
                    assert(l[i].1 != l[j].1);
                } else {
                    assert(l[j].1 != l[i].1);
                }
            }
        }
        assert forall|x: Seq<char>| ids.to_set().contains(x) implies first.to_set().contains(x) by {
            let i = choose|i: int| 0 <= i < ids.len() && ids[i] == x;
            let k = lemma_inactive_entry(b, i);
            assert(findings.contains(b[k]));
            let f = choose|f: int| 0 <= f < findings.len() && findings[f] == b[k];
            assert(all.contains((findings[f].1.last_seen, findings[f].0)));
            let e = (b[k].1.last_seen, b[k].0);
            broadcast use vstd::seq_lib::group_to_multiset_ensures;

            assert(all.to_multiset().count(e) > 0);
            assert(recent.to_multiset().count(e) > 0);
            assert(recent.contains(e));
            let p = choose|p: int| 0 <= p < recent.len() && recent[p] == e;
            if p >= max {
                assert(gone[p - max] == e);
                assert(b[k].0 != gone[p - max].1);
            }
            assert(head[p] == e);
            assert(first[p] == x);
        }
        ids.unique_seq_to_set();
        first.lemma_cardinality_of_set();
        vstd::set_lib::lemma_len_subset(ids.to_set(), first.to_set());
    }
}

proof fn lemma_other_key_stays(
    s: Seq<(Seq<char>, DiagnosticView)>,
    key: Seq<char>,
    e: (Seq<char>, DiagnosticView),
)
    requires
        s.contains(e),
        e.0 != key,
    ensures
        without(s, key).contains(e),
    decreases s.len(),
{
    let i = choose|i: int| 0 <= i < s.len() && s[i] == e;
    let t = s.skip(1);
    let w = without(s, key);
    if i == 0 {
        assert(w[0] == e);
    } else {
        assert(t[i - 1] == e);
        lemma_other_key_stays(t, key, e);
        let u = without(t, key);
        let k = choose|k: int| 0 <= k < u.len() && u[k] == e;
        if s[0].0 == key {
            assert(w[k] == e);
        } else {
            assert(w[k + 1] == e);
        }
    }
}

proof fn lemma_other_keys_stay(
    s: Seq<(Seq<char>, DiagnosticView)>,
    gone: Seq<(u64, Seq<char>)>,
    e: (Seq<char>, DiagnosticView),
)
    requires
        s.contains(e),
        forall|g: int| 0 <= g < gone.len() ==> (#[trigger] gone[g]).1 != e.0,
    ensures
        without_all(s, gone).contains(e),
    decreases gone.len(),
{
    if gone.len() > 0 {
        let less = gone.drop_last();
        assert forall|g: int| 0 <= g < less.len() implies (#[trigger] less[g]).1 != e.0 by {
            assert(less[g] == gone[g]);
        }
        lemma_other_keys_stay(s, less, e);
        assert(gone[gone.len() - 1].1 != e.0);
        lemma_other_key_stays(without_all(s, less), gone.last().1, e);
    }
}

/// A name that is listed as inactive is that of the entry listed.
proof fn lemma_listed_entry(
    s: Seq<(Seq<char>, DiagnosticView)>,
    k: int,
    listed: (u64, Seq<char>),
)
    requires
        well_filed(s),
        0 <= k < s.len(),
        arranged::<(u64, String), ByRecency>(inactive(s)).contains(listed),
        listed.1 == s[k].0,
    ensures
        s[k].1.status != Status::Active,
        listed.0 == s[k].1.last_seen,
{
    let all = inactive(s);
    let recent = arranged::<(u64, String), ByRecency>(all);
    law_arranged_keeps_all::<(u64, String), ByRecency>(all);
    broadcast use vstd::seq_lib::group_to_multiset_ensures;

    assert(recent.to_multiset().count(listed) > 0);
    assert(all.to_multiset().count(listed) > 0);
    assert(all.contains(listed));
    let i = choose|i: int| 0 <= i < all.len() && all[i] == listed;
    let q = lemma_inactive_entry(s, i);
    law_text_order(s[k].0, s[q].0);
    if q < k {
        assert(text_before(s[q].0, s[k].0));
    } else if k < q {
        assert(text_before(s[k].0, s[q].0));
    }
}

/// What the bound takes.
proof fn lemma_bound(findings: Seq<(Seq<char>, DiagnosticView)>)
    requires
        well_filed(findings),
    ensures
        inactive(findings).len() <= MAX_RECENT_FINDINGS ==> bounded(findings) == findings,
        forall|b: int|
            0 <= b < bounded(findings).len() ==> findings.contains(
                #[trigger] bounded(findings)[b],
            ),
        forall|k: int|
            0 <= k < findings.len() && (#[trigger] findings[k]).1.status == Status::Active
                ==> bounded(findings).contains(findings[k]),
        forall|k: int, b: int|
            0 <= k < findings.len() && 0 <= b < bounded(findings).len() && !bounded(
                findings,
            ).contains(#[trigger] findings[k]) && (
            #[trigger] bounded(findings)[b]).1.status != Status::Active
                ==> findings[k].1.last_seen <= bounded(findings)[b].1.last_seen,
{
    let all = inactive(findings);
    let recent = arranged::<(u64, String), ByRecency>(all);
    law_arranged_keeps_all::<(u64, String), ByRecency>(all);
    let max = MAX_RECENT_FINDINGS as int;
    let b = bounded(findings);
    if recent.len() <= max {
        assert forall|i: int| 0 <= i < findings.len() implies findings.contains(
            #[trigger] findings[i],
        ) by {}
    } else {
        let gone = recent.skip(max);
        assert(b == without_all(findings, gone));
        lemma_without_all(findings, gone);
        assert forall|k: int| 0 <= k < findings.len() && (#[trigger] findings[k]).1.status
            == Status::Active implies b.contains(findings[k]) by {
            assert forall|g: int| 0 <= g < gone.len() implies (#[trigger] gone[g]).1
                != findings[k].0 by {
                assert(recent[max + g] == gone[g]);
                if gone[g].1 == findings[k].0 {
                    lemma_listed_entry(findings, k, gone[g]);
                }
            }
            lemma_other_keys_stay(findings, gone, findings[k]);
        }
        assert forall|k: int, q: int|
            0 <= k < findings.len() && 0 <= q < b.len() && !b.contains(#[trigger] findings[k]) && (
            #[trigger] b[q]).1.status != Status::Active implies findings[k].1.last_seen
            <= b[q].1.last_seen by {
            lemma_dropped_is_older(findings, k, q);
        }
    }
}

proof fn lemma_dropped_is_older(findings: Seq<(Seq<char>, DiagnosticView)>, k: int, q: int)
    requires
        well_filed(findings),
        inactive(findings).len() > MAX_RECENT_FINDINGS,
        0 <= k < findings.len(),
        0 <= q < bounded(findings).len(),
        !bounded(findings).contains(findings[k]),
        bounded(findings)[q].1.status != Status::Active,
    ensures
        findings[k].1.last_seen <= bounded(findings)[q].1.last_seen,
{
    let all = inactive(findings);
    let recent = arranged::<(u64, String), ByRecency>(all);
    law_arranged_keeps_all::<(u64, String), ByRecency>(all);
    let max = MAX_RECENT_FINDINGS as int;
    let gone = recent.skip(max);
    let b = bounded(findings);
    assert(b == without_all(findings, gone));
    lemma_without_all(findings, gone);
    if forall|g: int| 0 <= g < gone.len() ==> (#[trigger] gone[g]).1 != findings[k].0 {
        lemma_other_keys_stay(findings, gone, findings[k]);
    }
    let g = choose|g: int| 0 <= g < gone.len() && (#[trigger] gone[g]).1 == findings[k].0;
    assert(recent[max + g] == gone[g]);
    lemma_listed_entry(findings, k, gone[g]);
    assert(findings.contains(b[q]));
    let f = choose|f: int| 0 <= f < findings.len() && findings[f] == b[q];
    lemma_inactive(findings);
    let e = (findings[f].1.last_seen, findings[f].0);
    assert(all.contains(e));
    broadcast use vstd::seq_lib::group_to_multiset_ensures;

    assert(all.to_multiset().count(e) > 0);
    assert(recent.to_multiset().count(e) > 0);
    assert(recent.contains(e));
    let p = choose|p: int| 0 <= p < recent.len() && recent[p] == e;
    if p >= max {
        assert(gone[p - max] == e);
        assert(b[q].0 != gone[p - max].1);
    }
    assert(is_ranking::<(u64, String), ByRecency>());
    law_arranged_is_ordered::<(u64, String), ByRecency>(all);
    assert(!<ByRecency as Rule<(u64, String)>>::before(recent[max + g], recent[p]));
}

proof fn lemma_started_sound(st: DiagnosticsView, fs: Seq<char>, now: Instant, gap: Duration)
    requires
        sound(st),
    ensures
        sound(started(st, fs, now, gap)),
{
    let own = if st.filesystem == fs {
        st
    } else {
        DiagnosticsView::blank(fs)
    };
    let f = all_staled(own.findings, now);
    assert forall|i: int, j: int| 0 <= i < j < f.len() implies text_before(
        #[trigger] f[i].0,
        #[trigger] f[j].0,
    ) by {
        assert(f[i].0 == own.findings[i].0 && f[j].0 == own.findings[j].0);
    }
    assert forall|i: int| 0 <= i < f.len() implies (#[trigger] f[i]).1.id == f[i].0 by {
        assert(own.findings[i].1.id == own.findings[i].0);
    }
}

proof fn lemma_read_at(s: Seq<(Seq<char>, CounterWindowView)>, now: Instant)
    requires
        windows_valid(s),
    ensures
        windows_valid(read_at(s, now)),
    decreases s.len(),
{
    if s.len() > 0 {
        let rest = s.drop_last();
        assert forall|i: int| 0 <= i < rest.len() implies (#[trigger] rest[i]).1.valid() by {
            assert(rest[i] == s[i]);
        }
        lemma_read_at(rest, now);
        let r = read_at(s, now);
        let a = read_at(rest, now);
        assert(s[s.len() - 1].1.valid());
        assert forall|i: int| 0 <= i < r.len() implies (#[trigger] r[i]).1.valid() by {
            if i < a.len() {
                assert(r[i] == a[i]);
            }
        }
    }
}

/// Every update keeps the diagnostics sound: whatever is sampled and however
/// often, each window stays within 61 buckets and at most 128 findings that
/// ended are kept.
pub proof fn law_updates_keep_diagnostics_sound(
    st: DiagnosticsView,
    fs: Seq<char>,
    snap: FsSnapshotView,
    now: Instant,
    interval: Duration,
)
    requires
        sound(st),
    ensures
        sound(updated(st, fs, snap, now, interval)),
        inactive(updated(st, fs, snap, now, interval).findings).len() <= 128,
        forall|i: int|
            0 <= i < updated(st, fs, snap, now, interval).counters.len() ==> (
            #[trigger] updated(st, fs, snap, now, interval).counters[i]).1.buckets.len() <= 61,
{
    lemma_sampled_sound(st, fs, snap, now, interval);
    let s2 = sampled(st, fs, snap, now, interval);
    lemma_read_at(s2.counters, now);
    lemma_kept(s2.findings, s2.seen, now);
    lemma_inactive_bounded(kept(s2.findings, s2.seen, now));
    let r = updated(st, fs, snap, now, interval);
    assert forall|i: int| 0 <= i < r.counters.len() implies (
    #[trigger] r.counters[i]).1.buckets.len() <= 61 by {
        law_window_is_bounded(r.counters[i].1);
    }
}

/// A finding that is active or was so within the window is kept.
proof fn lemma_kept_entry(
    findings: Seq<(Seq<char>, DiagnosticView)>,
    seen: Seq<(Seq<char>, bool)>,
    now: Instant,
    i: int,
)
    requires
        0 <= i < findings.len(),
        ({
            let d = unless_seen(findings[i], seen, now);
            d.status == Status::Active || since(now, d.last_seen) <= WINDOW
        }),
    ensures
        kept(findings, seen, now).contains(
            (findings[i].0, unless_seen(findings[i], seen, now)),
        ),
    decreases findings.len(),
{
    let rest = findings.drop_last();
    let k = kept(findings, seen, now);
    let e = (findings[i].0, unless_seen(findings[i], seen, now));
    if i < rest.len() {
        assert(rest[i] == findings[i]);
        lemma_kept_entry(rest, seen, now, i);
        let a = kept(rest, seen, now);
        let q = choose|q: int| 0 <= q < a.len() && a[q] == e;
        assert(k[q] == e);
    } else {
        assert(k[k.len() - 1] == e);
    }
}

/// What is kept comes from a finding.
proof fn lemma_kept_from(
    findings: Seq<(Seq<char>, DiagnosticView)>,
    seen: Seq<(Seq<char>, bool)>,
    now: Instant,
    q: int,
) -> (i: int)
    requires
        0 <= q < kept(findings, seen, now).len(),
    ensures
        0 <= i < findings.len(),
        kept(findings, seen, now)[q] == (findings[i].0, unless_seen(findings[i], seen, now)),
    decreases findings.len(),
{
    let rest = findings.drop_last();
    let a = kept(rest, seen, now);
    let k = kept(findings, seen, now);
    if q < a.len() {
        let i = lemma_kept_from(rest, seen, now, q);
        assert(k[q] == a[q]);
        assert(rest[i] == findings[i]);
        i
    } else {
        findings.len() - 1
    }
}

proof fn lemma_sampled_sound(
    st: DiagnosticsView,
    fs: Seq<char>,
    snap: FsSnapshotView,
    now: Instant,
    interval: Duration,
)
    requires
        sound(st),
    ensures
        sound(sampled(st, fs, snap, now, interval)),
{
    let gap = gap_of(interval);
    let s0 = started(st, fs, now, gap);
    lemma_started_sound(st, fs, now, gap);
    let fresh = is_fresh(snap, now, gap);
    lemma_devices_sound(s0, snap.devices, snap.diskstats_sampled_at, fresh, now, gap);
    assert forall|s: DiagnosticsView, id: Seq<char>, seen: Option<ObservationView>, valid: bool|
        sound(s) implies sound(#[trigger] recorded(s, id, seen, valid, now)) by {
        lemma_recorded_sound(s, id, seen, valid, now);
    }
    let s1 = members_sampled(s0, snap, now, gap);
    assert(sound(s1));
    lemma_journal_sound(s1, snap, now, gap);
}

/// Findings that ended expire: every finding that an update leaves is active or
/// was so within the last minute, and is one that the update made or found. One
/// that the update did not come to is stale.
pub proof fn law_inactive_findings_expire(
    st: DiagnosticsView,
    fs: Seq<char>,
    snap: FsSnapshotView,
    now: Instant,
    interval: Duration,
)
    requires
        sound(st),
    ensures
        ({
            let s = sampled(st, fs, snap, now, interval);
            let r = updated(st, fs, snap, now, interval).findings;
            &&& forall|i: int|
                0 <= i < r.len() ==> (#[trigger] r[i]).1.status == Status::Active || since(
                    now,
                    r[i].1.last_seen,
                ) <= 60_000_000_000
            &&& forall|i: int|
                0 <= i < r.len() ==> exists|k: int|
                    0 <= k < s.findings.len() && #[trigger] r[i] == (
                        (#[trigger] s.findings[k]).0,
                        unless_seen(s.findings[k], s.seen, now),
                    )
        }),
{
    let s = sampled(st, fs, snap, now, interval);
    let r = updated(st, fs, snap, now, interval).findings;
    lemma_sampled_sound(st, fs, snap, now, interval);
    lemma_kept(s.findings, s.seen, now);
    let k = kept(s.findings, s.seen, now);
    lemma_bound(k);
    assert(r == bounded(k));
    assert forall|i: int| 0 <= i < r.len() implies (#[trigger] r[i]).1.status == Status::Active
        || since(now, r[i].1.last_seen) <= WINDOW by {
        assert(k.contains(r[i]));
        let q = choose|q: int| 0 <= q < k.len() && k[q] == r[i];
        assert(k[q] == r[i]);
    }
    assert forall|i: int| 0 <= i < r.len() implies exists|f: int|
        0 <= f < s.findings.len() && #[trigger] r[i] == (
            (#[trigger] s.findings[f]).0,
            unless_seen(s.findings[f], s.seen, now),
        ) by {
        assert(k.contains(r[i]));
        let q = choose|q: int| 0 <= q < k.len() && k[q] == r[i];
        let f = lemma_kept_from(s.findings, s.seen, now, q);
        assert(r[i] == (s.findings[f].0, unless_seen(s.findings[f], s.seen, now)));
    }
}

/// An update drops only what expired and, above the bound, the oldest: an active
/// finding always stays, and one of the last minute that is dropped was last seen
/// no later than any inactive one that stays. While the bound is not exceeded, all
/// of the last minute stay.
pub proof fn law_the_oldest_inactive_findings_are_dropped(
    st: DiagnosticsView,
    fs: Seq<char>,
    snap: FsSnapshotView,
    now: Instant,
    interval: Duration,
)
    requires
        sound(st),
    ensures
        ({
            let s = sampled(st, fs, snap, now, interval);
            let all = kept(s.findings, s.seen, now);
            let r = updated(st, fs, snap, now, interval).findings;
            &&& inactive(all).len() <= 128 ==> r == all
            &&& forall|k: int|
                #![trigger s.findings[k]]
                0 <= k < s.findings.len() ==> {
                    let e = (s.findings[k].0, unless_seen(s.findings[k], s.seen, now));
                    &&& e.1.status == Status::Active ==> r.contains(e)
                    &&& since(now, e.1.last_seen) <= 60_000_000_000 && inactive(all).len()
                        <= 128 ==> r.contains(e)
                    &&& since(now, e.1.last_seen) <= 60_000_000_000 && !r.contains(e) ==> forall|b: int|
                        0 <= b < r.len() && (#[trigger] r[b]).1.status != Status::Active
                            ==> e.1.last_seen <= r[b].1.last_seen
                }
        }),
{
    let s = sampled(st, fs, snap, now, interval);
    let all = kept(s.findings, s.seen, now);
    let r = updated(st, fs, snap, now, interval).findings;
    lemma_sampled_sound(st, fs, snap, now, interval);
    lemma_kept(s.findings, s.seen, now);
    lemma_bound(all);
    assert(r == bounded(all));
    assert forall|k: int| #![trigger s.findings[k]] 0 <= k < s.findings.len() implies {
        let e = (s.findings[k].0, unless_seen(s.findings[k], s.seen, now));
        &&& e.1.status == Status::Active ==> r.contains(e)
        &&& since(now, e.1.last_seen) <= WINDOW && inactive(all).len() <= MAX_RECENT_FINDINGS
            ==> r.contains(e)
        &&& since(now, e.1.last_seen) <= WINDOW && !r.contains(e) ==> forall|b: int|
            0 <= b < r.len() && (#[trigger] r[b]).1.status != Status::Active ==> e.1.last_seen
                <= r[b].1.last_seen
    } by {
        let e = (s.findings[k].0, unless_seen(s.findings[k], s.seen, now));
        if e.1.status == Status::Active || since(now, e.1.last_seen) <= WINDOW {
            lemma_kept_entry(s.findings, s.seen, now, k);
            let q = choose|q: int| 0 <= q < all.len() && all[q] == e;
            assert(all[q] == e);
        }
    }
}

/// Nothing that was seen of one filesystem is held against another.
pub proof fn law_filesystems_do_not_share_evidence(
    st: DiagnosticsView,
    fs: Seq<char>,
    snap: FsSnapshotView,
    now: Instant,
    interval: Duration,
)
    requires
        st.filesystem != fs,
    ensures
        updated(st, fs, snap, now, interval) == updated(
            DiagnosticsView::blank(fs),
            fs,
            snap,
            now,
            interval,
        ),
{
}

/// One completion of any visible kind ends a stall.
pub proof fn law_a_completion_ends_a_stall(before: Progress, next: Progress, gap: Duration)
    requires
        next.since is None,
        before.reads != next.reads || before.writes != next.writes || before.discards
            != next.discards || before.flushes != next.flushes,
    ensures
        before.extended(next, gap).stalled() is None,
{
}

/// A stall is reported after thirty seconds and three samples without a
/// completion, not before.
pub proof fn law_a_stall_takes_time_and_samples(p: Progress)
    requires
        p.stalled() is Some,
    ensures
        p.stalled()->0 >= 30_000_000_000,
        p.samples >= 3,
        p.since is Some && p.stalled()->0 == since(p.at, p.since->0),
{
}

/// A counter without a baseline, or already read at this moment, shows
/// nothing.
proof fn lemma_no_baseline(
    st: DiagnosticsView,
    key: Seq<char>,
    counts: Seq<(Seq<char>, u64)>,
    now: Instant,
    gap: Duration,
)
    requires
        forall|i: int|
            0 <= i < counts.len() ==> find(
                st.counters,
                "errors:"@ + key + ":"@ + (#[trigger] counts[i]).0,
            ) is None,
    ensures
        errors_read(st, key, counts, now, gap).1.len() == 0,
        forall|k: Seq<char>|
            find(st.counters, k) is None ==> {
                let w = #[trigger] find(errors_read(st, key, counts, now, gap).0.counters, k);
                w is None || (w->0.previous is Some && (w->0.previous->0).0 == now)
            },
    decreases counts.len(),
{
    if counts.len() > 0 {
        let rest = counts.drop_last();
        assert forall|i: int| 0 <= i < rest.len() implies find(
            st.counters,
            "errors:"@ + key + ":"@ + (#[trigger] rest[i]).0,
        ) is None by {
            assert(rest[i] == counts[i]);
        }
        lemma_no_baseline(st, key, rest, now, gap);
        let before = errors_read(st, key, rest, now, gap).0;
        let (name, n) = counts.last();
        assert(counts[counts.len() - 1].0 == name);
        let full = "errors:"@ + key + ":"@ + name;
        let found = find(before.counters, full);
        let w = match found {
            Some(w) => w,
            None => CounterWindowView::blank(),
        };
        let next = observed(w, now, n, None, gap).0;
        let after = errors_read(st, key, counts, now, gap).0;
        assert(after.counters == put(before.counters, full, next));
        assert forall|k: Seq<char>| find(st.counters, k) is None implies {
            let w = #[trigger] find(after.counters, k);
            w is None || (w->0.previous is Some && (w->0.previous->0).0 == now)
        } by {
            law_put_then_find(before.counters, full, next, k);
            let u = find(before.counters, k);
        }
    }
}

/// The errors that a member has when it is first seen are a baseline: they are
/// not new.
pub proof fn law_first_errors_are_a_baseline(
    st: DiagnosticsView,
    d: DeviceInfoView,
    key: Seq<char>,
    now: Instant,
    gap: Duration,
)
    requires
        d.error_counts is Some,
        forall|i: int|
            0 <= i < (d.error_counts->0).len() ==> find(
                st.counters,
                "errors:"@ + key + ":"@ + (#[trigger] (d.error_counts->0)[i]).0,
            ) is None,
    ensures
        !errors_sampled(st, d, key, now, gap).1,
        find(
            errors_sampled(st, d, key, now, gap).0.findings,
            "device:"@ + key + ":errors"@,
        ) matches Some(f) ==> f.status != Status::Active,
{
    let id = "device:"@ + key + ":errors"@;
    let counts = d.error_counts->0;
    let shape = crate::diagnostics::keys_of(counts);
    let k = if counts.len() > 0 {
        DiagnosticsView { error_shapes: put(st.error_shapes, key, shape), ..st }
    } else {
        st
    };
    lemma_no_baseline(k, key, counts, now, gap);
    let (read, texts, continued) = errors_read(k, key, counts, now, gap);
    assert forall|valid: bool|
        find((#[trigger] recorded(read, id, None, valid, now)).findings, id) matches Some(f)
            ==> f.status != Status::Active by {
        lemma_recorded_now(read, id, None, valid, now);
    }
}

/// A counter that could not be read is no counter at zero: it shows nothing
/// and its baseline is gone.
pub proof fn law_missing_is_not_zero(
    st: DiagnosticsView,
    key: Seq<char>,
    now: Instant,
    recent_ns: Option<u64>,
    gap: Duration,
)
    ensures
        counter_read(st, key, now, None, recent_ns, gap).1 is None,
        find(counter_read(st, key, now, None, recent_ns, gap).0.counters, key) is None,
{
    crate::strmap::law_without_then_find(st.counters, key, key);
}

/// The state that a member has when it is first seen is a baseline: a member that
/// was read-only from the start did not become so. Only what was found before and
/// not resolved is found again.
pub proof fn law_a_first_state_is_a_baseline(
    st: DiagnosticsView,
    d: DeviceInfoView,
    key: Seq<char>,
    now: Instant,
)
    requires
        find(st.member_states, key) is None,
        open_incident(st, "device:"@ + key + ":state"@) is None,
    ensures
        ({
            let id = "device:"@ + key + ":state"@;
            let after = find(state_sampled(st, d, key, now).findings, id);
            &&& find(st.findings, id) is None ==> after is None
            &&& after matches Some(f) ==> f.status != Status::Active
        }),
{
    let id = "device:"@ + key + ":state"@;
    match (d.allocation.state, d.allocation.online) {
        (Some(state), Some(online)) => {
            let k = DiagnosticsView {
                member_states: put(st.member_states, key, (state, online)),
                ..st
            };
            lemma_recorded_now(k, id, None, false, now);
            let after = recorded(k, id, None, false, now);
            assert(with_recovery(after, id, (state, online)) == after);
        },
        _ => {
            lemma_recorded_now(
                DiagnosticsView { member_states: without(st.member_states, key), ..st },
                id,
                None,
                false,
                now,
            );
        },
    }
}

/// A member that is writable and online again resolves what was said of its
/// state, and the recovery is noted. What was resolved stays so while the state is
/// known from one sample to the next.
pub proof fn law_a_recovery_resolves(
    st: DiagnosticsView,
    d: DeviceInfoView,
    key: Seq<char>,
    now: Instant,
)
    requires
        d.allocation.state == Some("rw"@),
        d.allocation.online == Some(true),
        find(st.findings, "device:"@ + key + ":state"@) is Some,
        open_incident(st, "device:"@ + key + ":state"@) is Some || find(st.member_states, key) is Some,
    ensures
        ({
            let f = find(state_sampled(st, d, key, now).findings, "device:"@ + key + ":state"@);
            &&& f is Some
            &&& (f->0).status == Status::Resolved
            &&& recovery_noted((f->0).evidence)
        }),
{
    let id = "device:"@ + key + ":state"@;
    let current = ("rw"@, true);
    let k = DiagnosticsView { member_states: put(st.member_states, key, current), ..st };
    let found = find(st.findings, id)->0;
    let resolved = DiagnosticView {
        status: Status::Resolved,
        status_since: if found.status == Status::Resolved {
            found.status_since
        } else {
            now
        },
        ..found
    };
    let after = recorded(k, id, None, true, now);
    law_put_then_find(st.findings, id, resolved, id);
    assert(find(after.findings, id) == Some(resolved));
    if !recovery_noted(resolved.evidence) {
        let note = "Recovery observed: "@ + current.0 + " / online="@ + truth(current.1);
        let noted = DiagnosticView { evidence: resolved.evidence.push(note), ..resolved };
        law_put_then_find(after.findings, id, noted, id);
        reveal_strlit("Recovery observed: ");
        reveal_strlit("Recovery observed:");
        assert(note.take("Recovery observed:"@.len() as int) =~= "Recovery observed:"@);
        assert(noted.evidence[noted.evidence.len() - 1] == note);
        assert(has_prefix(noted.evidence[noted.evidence.len() - 1], "Recovery observed:"@));
    }
}

/// A sample that could not have shown a finding resolves none: the finding is
/// stale, which never means healthy.
pub proof fn law_only_a_valid_sample_resolves(st: DiagnosticsView, id: Seq<char>, now: Instant)
    requires
        find(st.findings, id) is Some,
    ensures
        find(recorded(st, id, None, false, now).findings, id) matches Some(d) && d.status
            == Status::Stale,
        find(recorded(st, id, None, true, now).findings, id) matches Some(d) && d.status
            == Status::Resolved,
{
    let d = find(st.findings, id)->0;
    let stale = DiagnosticView {
        status: Status::Stale,
        status_since: if d.status == Status::Stale {
            d.status_since
        } else {
            now
        },
        ..d
    };
    let resolved = DiagnosticView {
        status: Status::Resolved,
        status_since: if d.status == Status::Resolved {
            d.status_since
        } else {
            now
        },
        ..d
    };
    law_put_then_find(st.findings, id, stale, id);
    law_put_then_find(st.findings, id, resolved, id);
}

/// A gap, or a clock that did not advance, breaks everything: no window and no
/// baseline outlives it, and what was found before is stale.
pub proof fn law_a_gap_breaks_all_evidence(
    st: DiagnosticsView,
    fs: Seq<char>,
    now: Instant,
    gap: Duration,
    i: int,
)
    requires
        st.last_update is Some,
        !(st.last_update->0 < now && now - st.last_update->0 <= gap),
    ensures
        ({
            let s = started(st, fs, now, gap);
            &&& s.counters.len() == 0 && s.progress.len() == 0
            &&& s.member_states.len() == 0 && s.error_shapes.len() == 0
            &&& 0 <= i < s.findings.len() ==> s.findings[i].1.status == Status::Stale
        }),
{
}

proof fn lemma_with_keys<V>(s: Seq<(Seq<char>, V)>, keys: Seq<Seq<char>>, key: Seq<char>)
    requires
        !keys.contains(key),
    ensures
        forall|i: int|
            0 <= i < with_keys(s, keys).len() ==> (#[trigger] with_keys(s, keys)[i]).0 != key,
    decreases s.len(),
{
    if s.len() > 0 {
        let rest = with_keys(s.drop_last(), keys);
        lemma_with_keys(s.drop_last(), keys, key);
        assert forall|i: int| 0 <= i < with_keys(s, keys).len() implies (#[trigger] with_keys(
            s,
            keys,
        )[i]).0 != key by {
            if i < rest.len() {
                assert(with_keys(s, keys)[i] == rest[i]);
            }
        }
    }
}

proof fn lemma_absent<V>(s: Seq<(Seq<char>, V)>, key: Seq<char>)
    requires
        forall|i: int| 0 <= i < s.len() ==> (#[trigger] s[i]).0 != key,
    ensures
        find(s, key) is None,
    decreases s.len(),
{
    if s.len() > 0 {
        assert(s[0].0 != key);
        let rest = s.skip(1);
        assert forall|i: int| 0 <= i < rest.len() implies (#[trigger] rest[i]).0 != key by {
            assert(rest[i] == s[i + 1]);
        }
        lemma_absent(rest, key);
    }
}

/// A member that is gone leaves no baseline behind: it starts anew when it comes
/// back.
pub proof fn law_a_vanished_member_has_no_baseline(
    st: DiagnosticsView,
    fs: Seq<char>,
    snap: FsSnapshotView,
    now: Instant,
    interval: Duration,
    key: Seq<char>,
)
    requires
        !member_keys(snap.devices).contains(key),
    ensures
        ({
            let s = updated(st, fs, snap, now, interval);
            &&& find(s.progress, key) is None
            &&& find(s.member_states, key) is None
            &&& find(s.error_shapes, key) is None
        }),
{
    let gap = gap_of(interval);
    let s0 = started(st, fs, now, gap);
    let fresh = is_fresh(snap, now, gap);
    let s1 = devices_sampled(s0, snap.devices, snap.diskstats_sampled_at, fresh, now, gap).0;
    let keys = member_keys(snap.devices);
    lemma_with_keys(s1.progress, keys, key);
    lemma_with_keys(s1.member_states, keys, key);
    lemma_with_keys(s1.error_shapes, keys, key);
    lemma_absent(with_keys(s1.progress, keys), key);
    lemma_absent(with_keys(s1.member_states, keys), key);
    lemma_absent(with_keys(s1.error_shapes, keys), key);
    let s2 = members_sampled(s0, snap, now, gap);
    if fresh {
        lemma_journal_keeps_members(s2, snap, now, gap);
    }
}

/// Whether the evidence on members is the same.
spec fn same_members(a: DiagnosticsView, b: DiagnosticsView) -> bool {
    &&& a.progress == b.progress
    &&& a.member_states == b.member_states
    &&& a.error_shapes == b.error_shapes
}

proof fn lemma_journal_read_keeps_members(
    st: DiagnosticsView,
    snap: FsSnapshotView,
    now: Instant,
    gap: Duration,
)
    ensures
        same_members(st, journal_read(st, snap, now, gap).0),
{
    assert forall|s: DiagnosticsView, name: Seq<char>| same_members(st, s) implies same_members(
        st,
        #[trigger] crate::diagnostics::blocked_read(s, snap, name, now, gap).0,
    ) by {}
    assert forall|s: DiagnosticsView, name: Seq<char>| same_members(st, s) implies same_members(
        st,
        #[trigger] crate::diagnostics::operation_read(s, snap, name, now, gap).0,
    ) by {}
    assert forall|s: DiagnosticsView| same_members(st, s) implies same_members(
        st,
        #[trigger] counter_read(
            s,
            "journal_seq_ondisk"@,
            now,
            snap.journal.seq_ondisk,
            None,
            gap,
        ).0,
    ) by {}
    let s1 = crate::diagnostics::blocked_read(st, snap, "journal_low_on_space"@, now, gap).0;
    assert(same_members(st, s1));
}

/// The journal says nothing of members.
proof fn lemma_journal_keeps_members(
    st: DiagnosticsView,
    snap: FsSnapshotView,
    now: Instant,
    gap: Duration,
)
    ensures
        same_members(st, journal_sampled(st, snap, now, gap)),
{
    lemma_journal_read_keeps_members(st, snap, now, gap);
    assert forall|s: DiagnosticsView, id: Seq<char>, seen: Option<ObservationView>, valid: bool|
        same_members(st, s) implies same_members(
        st,
        #[trigger] recorded(s, id, seen, valid, now),
    ) by {}
}

/// Space is said to be short exactly where the kernel blocked for it. A cause is
/// suggested only where an operation was slow while it was in use, and pressure
/// needs a block.
pub proof fn law_causes_need_slow_operations(j: JournalEvidence)
    ensures
        pressure_of(j) == Some(Pressure::Space) <==> happened(j.space),
        pressure_of(j) == Some(Pressure::Reclaim) ==> was_slow(j.pin_btree) || was_slow(j.pin_cache),
        pressure_of(j) == Some(Pressure::Completion) ==> happened(j.flight) && (was_slow(j.flush)
            || was_slow(j.noflush) || was_slow(j.flush_seq)),
        pressure_of(j) is Some <==> happened(j.space) || happened(j.flight) || happened(j.open),
{
}

/// The finding on the journal says what its counters show. It is active exactly
/// where the kernel blocked for the journal; space is named exactly where it
/// blocked for that, and then as observed; a cause is named only as possible, and
/// only where one of its operations advanced and was slow at that. Where nothing
/// blocked, a finding is resolved if all three counters could have shown a block,
/// and stale if one of them could not; without one before there is none.
pub proof fn law_the_journal_finding_follows_its_counters(
    st: DiagnosticsView,
    snap: FsSnapshotView,
    now: Instant,
    gap: Duration,
)
    ensures
        ({
            let j = journal_read(st, snap, now, gap).1;
            let blocked = happened(j.space) || happened(j.flight) || happened(j.open);
            let before = find(st.findings, "journal:pressure"@);
            let after = find(journal_sampled(st, snap, now, gap).findings, "journal:pressure"@);
            &&& blocked ==> (after matches Some(f) && f.status == Status::Active && f.last_seen
                == now)
            &&& blocked ==> (after->0.summary == "Journal-space pressure"@ <==> happened(j.space))
            &&& happened(j.space) ==> after->0.confidence == Confidence::Observed
            &&& blocked && after->0.confidence == Confidence::PossibleCause ==> {
                ||| after->0.summary
                    == "Possible metadata-reclaim bottleneck affecting the journal"@ && (was_slow(
                    j.pin_btree,
                ) || was_slow(j.pin_cache))
                ||| after->0.summary == "Possible journal-completion bottleneck"@ && happened(
                    j.flight,
                ) && (was_slow(j.flush) || was_slow(j.noflush) || was_slow(j.flush_seq))
            }
            &&& !blocked && before is None ==> after is None
            &&& !blocked && before is Some ==> (after matches Some(f) && f.status == if j.space is Some
                && j.flight is Some && j.open is Some {
                Status::Resolved
            } else {
                Status::Stale
            })
        }),
{
    let (read, j) = journal_read(st, snap, now, gap);
    let id = "journal:pressure"@;
    lemma_journal_read_keeps_findings(st, snap, now, gap);
    reveal_strlit("journal:pressure");
    reveal_strlit("journal:write-buffer");
    reveal_strlit("allocator:pressure");
    reveal_strlit("journal:entry-occupancy");
    reveal_strlit("Journal-space pressure");
    reveal_strlit("Journal-pipeline pressure");
    reveal_strlit("Possible journal-completion bottleneck");
    reveal_strlit("Possible metadata-reclaim bottleneck affecting the journal");
    let valid = j.space is Some && j.flight is Some && j.open is Some;
    let s1 = recorded(read, id, pressure_seen(j, snap), valid, now);
    assert forall|s: DiagnosticsView, other: Seq<char>, seen: Option<ObservationView>, could: bool|
        other != id implies find((#[trigger] recorded(s, other, seen, could, now)).findings, id)
        == find(s.findings, id) by {
        lemma_other_findings_stay(s, other, seen, could, now, id);
    }
    assert("journal:write-buffer"@.len() != id.len());
    assert("allocator:pressure"@.len() != id.len());
    assert("journal:entry-occupancy"@.len() != id.len());
    assert(find(journal_sampled(st, snap, now, gap).findings, id) == find(s1.findings, id));
    lemma_recorded_now(read, id, pressure_seen(j, snap), valid, now);
    let after = find(s1.findings, id);
    match pressure_of(j) {
        Some(p) => {
            let o = p.seen(journal_texts(j, snap));
            assert(pressure_seen(j, snap) == Some(o));
            assert(after->0.summary == o.summary && after->0.confidence == o.confidence);
            assert("Journal-pipeline pressure"@.len() != "Journal-space pressure"@.len());
            assert("Possible journal-completion bottleneck"@.len() != "Journal-space pressure"@.len());
            assert("Possible metadata-reclaim bottleneck affecting the journal"@.len()
                != "Journal-space pressure"@.len());
        },
        None => {},
    }
}

pub(crate) proof fn lemma_journal_read_keeps_findings(
    st: DiagnosticsView,
    snap: FsSnapshotView,
    now: Instant,
    gap: Duration,
)
    ensures
        journal_read(st, snap, now, gap).0.findings == st.findings,
{
    assert forall|s: DiagnosticsView, name: Seq<char>| s.findings == st.findings implies (
    #[trigger] crate::diagnostics::blocked_read(s, snap, name, now, gap)).0.findings
        == st.findings by {}
    assert forall|s: DiagnosticsView, name: Seq<char>| s.findings == st.findings implies (
    #[trigger] crate::diagnostics::operation_read(s, snap, name, now, gap)).0.findings
        == st.findings by {}
}

/// What a sample of one diagnostic does to the findings on others: nothing.
pub(crate) proof fn lemma_other_findings_stay(
    st: DiagnosticsView,
    id: Seq<char>,
    seen: Option<ObservationView>,
    valid: bool,
    now: Instant,
    other: Seq<char>,
)
    requires
        other != id,
    ensures
        find(recorded(st, id, seen, valid, now).findings, other) == find(st.findings, other),
{
    let r = recorded(st, id, seen, valid, now).findings;
    if r != st.findings {
        let f = choose|f: DiagnosticView| r == #[trigger] put(st.findings, id, f);
        law_put_then_find(st.findings, id, f, other);
    }
}

pub(crate) proof fn lemma_recorded_now(
    st: DiagnosticsView,
    id: Seq<char>,
    seen: Option<ObservationView>,
    valid: bool,
    now: Instant,
)
    ensures
        ({
            let before = find(st.findings, id);
            let after = find(recorded(st, id, seen, valid, now).findings, id);
            match seen {
                Some(o) => after matches Some(f) && f.status == Status::Active && f.last_seen
                    == now && f.summary == o.summary && f.confidence == o.confidence,
                None => if before is Some {
                    after matches Some(f) && f.status == if valid {
                        Status::Resolved
                    } else {
                        Status::Stale
                    }
                } else {
                    after is None
                },
            }
        }),
{
    let r = recorded(st, id, seen, valid, now).findings;
    let found = find(st.findings, id);
    match seen {
        Some(o) => {
            let first = match found {
                Some(d) => if d.status == Status::Active {
                    d.first_seen
                } else {
                    now
                },
                None => now,
            };
            let f = DiagnosticView {
                id,
                severity: o.severity,
                confidence: o.confidence,
                summary: o.summary,
                evidence: o.evidence,
                action: o.action,
                criteria: ""@,
                first_seen: first,
                last_seen: now,
                status_since: first,
                status: Status::Active,
            };
            law_put_then_find(st.findings, id, f, id);
        },
        None => {
            if found is Some {
                law_only_a_valid_sample_resolves(st, id, now);
            }
        },
    }
}

/// Errors are grouped where two members have new ones, and not for one.
pub proof fn law_a_group_takes_two_members(erring: Seq<Seq<char>>)
    ensures
        cluster_seen(erring) is Some <==> erring.len() >= 2,
        cluster_seen(erring) matches Some(o) ==> o.confidence == Confidence::PossibleCause,
{
}

/// Samples of the devices without texts come to no finding but those on their
/// completions, and to no new errors.
proof fn lemma_devices_see_completions(
    st: DiagnosticsView,
    devices: Seq<DeviceInfoView>,
    sampled_at: Option<Instant>,
    now: Instant,
    gap: Duration,
    id: Seq<char>,
)
    requires
        !has_suffix(id, ":no-completions"@),
    ensures
        find(devices_sampled(st, devices, sampled_at, false, now, gap).0.seen, id) == find(
            st.seen,
            id,
        ),
        devices_sampled(st, devices, sampled_at, false, now, gap).1.len() == 0,
    decreases devices.len(),
{
    if devices.len() > 0 {
        lemma_devices_see_completions(st, devices.drop_last(), sampled_at, now, gap, id);
        let before = devices_sampled(st, devices.drop_last(), sampled_at, false, now, gap).0;
        let head = "device:"@ + devices.last().key();
        let other = head + ":no-completions"@;
        assert(other.skip(head.len() as int) =~= ":no-completions"@);
        law_put_then_find(before.seen, other, true, id);
    }
}

/// An entry of an ordered list is the one that is found under its key.
proof fn lemma_entry_is_found(s: Seq<(Seq<char>, DiagnosticView)>, i: int)
    requires
        keys_ordered(s),
        0 <= i < s.len(),
    ensures
        find(s, s[i].0) == Some(s[i].1),
    decreases s.len(),
{
    if i > 0 {
        assert(text_before(s[0].0, s[i].0));
        law_text_order(s[0].0, s[i].0);
        let t = s.skip(1);
        assert forall|a: int, b: int| 0 <= a < b < t.len() implies text_before(
            #[trigger] t[a].0,
            #[trigger] t[b].0,
        ) by {
            assert(t[a] == s[a + 1] && t[b] == s[b + 1]);
        }
        assert(t[i - 1] == s[i]);
        lemma_entry_is_found(t, i - 1);
    }
}

/// A finding that an update did not come to is stale.
proof fn lemma_unseen_is_stale(
    findings: Seq<(Seq<char>, DiagnosticView)>,
    seen: Seq<(Seq<char>, bool)>,
    now: Instant,
    i: int,
)
    requires
        0 <= i < kept(findings, seen, now).len(),
        find(seen, kept(findings, seen, now)[i].0) is None,
    ensures
        kept(findings, seen, now)[i].1.status == Status::Stale,
    decreases findings.len(),
{
    if findings.len() > 0 {
        let rest = kept(findings.drop_last(), seen, now);
        if i < rest.len() {
            assert(kept(findings, seen, now)[i] == rest[i]);
            lemma_unseen_is_stale(findings.drop_last(), seen, now, i);
        }
    }
}

/// Texts that took too long to collect show nothing of now: whatever they say, no
/// finding is active or resolved but those on completions, which are sampled by
/// themselves.
pub proof fn law_old_samples_support_nothing(
    st: DiagnosticsView,
    fs: Seq<char>,
    snap: FsSnapshotView,
    now: Instant,
    interval: Duration,
    id: Seq<char>,
)
    requires
        sound(st),
        !is_fresh(snap, now, gap_of(interval)),
        !has_suffix(id, ":no-completions"@),
    ensures
        find(updated(st, fs, snap, now, interval).findings, id) matches Some(d) ==> d.status
            == Status::Stale,
{
    let gap = gap_of(interval);
    let s0 = started(st, fs, now, gap);
    let (d1, erring, valid) = devices_sampled(
        s0,
        snap.devices,
        snap.diskstats_sampled_at,
        false,
        now,
        gap,
    );
    let group = "devices:correlated-errors"@;
    let keys = member_keys(snap.devices);
    let d2 = DiagnosticsView {
        progress: with_keys(d1.progress, keys),
        member_states: with_keys(d1.member_states, keys),
        error_shapes: with_keys(d1.error_shapes, keys),
        ..d1
    };
    lemma_devices_see_completions(s0, snap.devices, snap.diskstats_sampled_at, now, gap, id);
    assert(cluster_seen(erring) is None);
    let s1 = sampled(st, fs, snap, now, interval);
    let r1 = recorded(d2, group, None, false, now);
    assert(s1.seen == r1.seen && s1.findings == r1.findings);
    law_put_then_find(d1.seen, group, true, id);
    lemma_recorded_now(d2, group, None, false, now);
    lemma_sampled_sound(st, fs, snap, now, interval);
    lemma_kept(s1.findings, s1.seen, now);
    let k = kept(s1.findings, s1.seen, now);
    lemma_bound(k);
    let b = bounded(k);
    assert(updated(st, fs, snap, now, interval).findings == b);
    if find(b, id) is Some {
        lemma_found(b, id);
        let i = choose|i: int| 0 <= i < b.len() && b[i] == (id, find(b, id)->0);
        assert(k.contains(b[i]));
        let q = choose|q: int| 0 <= q < k.len() && k[q] == b[i];
        if id == group {
            let f = lemma_kept_from(s1.findings, s1.seen, now, q);
            lemma_entry_is_found(s1.findings, f);
        } else {
            lemma_unseen_is_stale(s1.findings, s1.seen, now, q);
        }
    }
}

} // verus!
