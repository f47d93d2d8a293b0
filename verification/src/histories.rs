//! What can be found right after a break: a gap in the samples, or a change of
//! filesystem.

use crate::diagnostics::{
    all_staled, blocked_count, blocked_read, bounded, cluster_seen, counter_read, devices_sampled,
    errors_read, errors_sampled, gap_of, inactive, is_fresh, journal_read, journal_sampled, kept,
    keys_of, member_keys, members_sampled, open_incident, operation_read, progressed, recorded,
    started, state_observation, state_sampled, unless_seen, updated, with_keys, with_recovery,
    without_all, ByRecency, DiagnosticView, DiagnosticsView, ObservationView, Progress, Status,
    MAX_RECENT_FINDINGS,
};
use crate::order::arranged;
use crate::soundness::{lemma_found, lemma_journal_read_keeps_findings, lemma_put_entries};
use crate::strmap::{
    find, law_put_then_find, law_without_then_find, lemma_without_entries, put, without,
};
use crate::sysfs::{DeviceInfoView, Duration, FsSnapshotView, Instant};
use crate::text::has_suffix;
use crate::window::{observed, since, CounterWindowView};
use vstd::prelude::*;

verus! {

/// Whether a finding rests on more than one sample: on completions, error
/// counters or blocked operations.
pub open spec fn needs_history(id: Seq<char>) -> bool {
    ||| has_suffix(id, ":no-completions"@)
    ||| has_suffix(id, ":errors"@)
    ||| id == "devices:correlated-errors"@
    ||| id == "journal:pressure"@
    ||| id == "journal:write-buffer"@
    ||| id == "allocator:pressure"@
}

spec fn quiet(e: (Seq<char>, DiagnosticView)) -> bool {
    needs_history(e.0) ==> e.1.status != Status::Active
}

spec fn recent(e: (Seq<char>, DiagnosticView), now: Instant) -> bool {
    e.1.first_seen == now
}

spec fn all_are(
    s: Seq<(Seq<char>, DiagnosticView)>,
    p: spec_fn((Seq<char>, DiagnosticView)) -> bool,
) -> bool {
    forall|i: int| 0 <= i < s.len() ==> p(#[trigger] s[i])
}

// ------------------------------------------------------------- lists of findings

proof fn lemma_all_put(
    s: Seq<(Seq<char>, DiagnosticView)>,
    id: Seq<char>,
    d: DiagnosticView,
    p: spec_fn((Seq<char>, DiagnosticView)) -> bool,
)
    requires
        all_are(s, p),
        p((id, d)),
    ensures
        all_are(put(s, id, d), p),
{
    let r = put(s, id, d);
    assert forall|i: int| 0 <= i < r.len() implies p(#[trigger] r[i]) by {
        lemma_put_entries(s, id, d, i);
        if s.contains(r[i]) {
            let k = choose|k: int| 0 <= k < s.len() && s[k] == r[i];
            assert(p(s[k]));
        }
    }
}

proof fn lemma_all_found(
    s: Seq<(Seq<char>, DiagnosticView)>,
    id: Seq<char>,
    p: spec_fn((Seq<char>, DiagnosticView)) -> bool,
)
    requires
        all_are(s, p),
        find(s, id) is Some,
    ensures
        p((id, find(s, id)->0)),
{
    lemma_found(s, id);
    let k = choose|k: int| 0 <= k < s.len() && s[k] == (id, find(s, id)->0);
    assert(p(s[k]));
}

proof fn lemma_all_kept(
    s: Seq<(Seq<char>, DiagnosticView)>,
    seen: Seq<(Seq<char>, bool)>,
    now: Instant,
    p: spec_fn((Seq<char>, DiagnosticView)) -> bool,
)
    requires
        all_are(s, p),
        forall|e: (Seq<char>, DiagnosticView)|
            p(e) ==> p((e.0, #[trigger] unless_seen(e, seen, now))),
    ensures
        all_are(kept(s, seen, now), p),
    decreases s.len(),
{
    if s.len() > 0 {
        let rest = s.drop_last();
        assert forall|i: int| 0 <= i < rest.len() implies p(#[trigger] rest[i]) by {
            assert(rest[i] == s[i]);
        }
        lemma_all_kept(rest, seen, now, p);
        let a = kept(rest, seen, now);
        let k = kept(s, seen, now);
        assert(p(s[s.len() - 1]));
        assert forall|i: int| 0 <= i < k.len() implies p(#[trigger] k[i]) by {
            if i < a.len() {
                assert(k[i] == a[i]);
            } else {
                assert(k[i] == (s.last().0, unless_seen(s.last(), seen, now)));
            }
        }
    }
}

proof fn lemma_all_without(
    s: Seq<(Seq<char>, DiagnosticView)>,
    gone: Seq<(u64, Seq<char>)>,
    p: spec_fn((Seq<char>, DiagnosticView)) -> bool,
)
    requires
        all_are(s, p),
    ensures
        all_are(without_all(s, gone), p),
    decreases gone.len(),
{
    if gone.len() > 0 {
        lemma_all_without(s, gone.drop_last(), p);
        let a = without_all(s, gone.drop_last());
        let w = without_all(s, gone);
        lemma_without_entries(a, gone.last().1);
        assert forall|i: int| 0 <= i < w.len() implies p(#[trigger] w[i]) by {
            assert(a.contains(w[i]));
            let k = choose|k: int| 0 <= k < a.len() && a[k] == w[i];
            assert(p(a[k]));
        }
    }
}

proof fn lemma_all_bounded(
    s: Seq<(Seq<char>, DiagnosticView)>,
    p: spec_fn((Seq<char>, DiagnosticView)) -> bool,
)
    requires
        all_are(s, p),
    ensures
        all_are(bounded(s), p),
{
    let order = arranged::<(u64, String), ByRecency>(inactive(s));
    lemma_all_without(s, order.skip(MAX_RECENT_FINDINGS as int), p);
}

// ------------------------------------------------------------------- after a gap

/// Whether no counter was read before this moment.
spec fn counters_new(st: DiagnosticsView, now: Instant) -> bool {
    forall|k: Seq<char>|
        (#[trigger] find(st.counters, k)) matches Some(w) ==> w.previous is Some && (
        w.previous->0).0 == now
}

/// Whether no completions were seen before this sample.
spec fn progress_new(st: DiagnosticsView, sampled_at: Option<Instant>) -> bool {
    sampled_at matches Some(at) ==> forall|k: Seq<char>|
        (#[trigger] find(st.progress, k)) matches Some(p) ==> p.at == at && p.since is None
}

spec fn all_quiet(s: Seq<(Seq<char>, DiagnosticView)>) -> bool {
    all_are(s, |e: (Seq<char>, DiagnosticView)| quiet(e))
}

/// Whether nothing rests on samples from before.
spec fn anew(st: DiagnosticsView, sampled_at: Option<Instant>, now: Instant) -> bool {
    &&& counters_new(st, now)
    &&& progress_new(st, sampled_at)
    &&& all_quiet(st.findings)
}

proof fn lemma_counter_anew(
    st: DiagnosticsView,
    key: Seq<char>,
    now: Instant,
    count: Option<u64>,
    recent_ns: Option<u64>,
    gap: Duration,
)
    requires
        counters_new(st, now),
    ensures
        counters_new(counter_read(st, key, now, count, recent_ns, gap).0, now),
        counter_read(st, key, now, count, recent_ns, gap).1 is None,
        counter_read(st, key, now, count, recent_ns, gap).0.findings == st.findings,
        counter_read(st, key, now, count, recent_ns, gap).0.progress == st.progress,
{
    let r = counter_read(st, key, now, count, recent_ns, gap).0;
    let found = find(st.counters, key);
    match count {
        Some(n) => {
            let w = match found {
                Some(w) => w,
                None => CounterWindowView::blank(),
            };
            let next = observed(w, now, n, recent_ns, gap).0;
            assert forall|k: Seq<char>|
                (#[trigger] find(r.counters, k)) matches Some(w) ==> w.previous is Some && (
                w.previous->0).0 == now by {
                law_put_then_find(st.counters, key, next, k);
                let before = find(st.counters, k);
            }
        },
        None => {
            assert forall|k: Seq<char>|
                (#[trigger] find(r.counters, k)) matches Some(w) ==> w.previous is Some && (
                w.previous->0).0 == now by {
                law_without_then_find(st.counters, key, k);
                let before = find(st.counters, k);
            }
        },
    }
}

/// A diagnostic that rests on no history may be seen; another may not.
proof fn lemma_recorded_quiet(
    st: DiagnosticsView,
    id: Seq<char>,
    seen: Option<ObservationView>,
    valid: bool,
    now: Instant,
)
    requires
        all_quiet(st.findings),
        seen is None || !needs_history(id),
    ensures
        all_quiet(recorded(st, id, seen, valid, now).findings),
{
    let p = |e: (Seq<char>, DiagnosticView)| quiet(e);
    let r = recorded(st, id, seen, valid, now);
    match seen {
        Some(o) => {
            let first = match find(st.findings, id) {
                Some(d) => if d.status == Status::Active {
                    d.first_seen
                } else {
                    now
                },
                None => now,
            };
            let d = DiagnosticView {
                id,
                severity: o.severity,
                confidence: o.confidence,
                summary: o.summary,
                evidence: o.evidence,
                action: o.action,
                criteria: ""@,
                first_seen: first,
                last_seen: now,
                status_since: first,
                status: Status::Active,
            };
            lemma_all_put(st.findings, id, d, p);
        },
        None => {
            if let Some(d) = find(st.findings, id) {
                let status = if valid {
                    Status::Resolved
                } else {
                    Status::Stale
                };
                let t = if status == d.status {
                    d.status_since
                } else {
                    now
                };
                lemma_all_put(
                    st.findings,
                    id,
                    DiagnosticView { status, status_since: t, ..d },
                    p,
                );
            }
        },
    }
}

proof fn lemma_progressed_anew(
    st: DiagnosticsView,
    d: DeviceInfoView,
    key: Seq<char>,
    at: Instant,
    now: Instant,
    gap: Duration,
)
    requires
        anew(st, Some(at), now),
    ensures
        anew(progressed(st, d, key, at, now, gap), Some(at), now),
{
    let id = "device:"@ + key + ":no-completions"@;
    let r = progressed(st, d, key, at, now, gap);
    if !d.diskstats_valid || at > now || since(now, at) > gap || d.allocation.online == Some(false) {
        lemma_recorded_quiet(
            DiagnosticsView { progress: without(st.progress, key), ..st },
            id,
            None,
            false,
            now,
        );
        assert forall|k: Seq<char>|
            (#[trigger] find(r.progress, k)) matches Some(p) ==> p.at == at && p.since is None by {
            law_without_then_find(st.progress, key, k);
            let before = find(st.progress, k);
        }
    } else {
        let p = Progress::reading(d, at);
        let before = find(st.progress, key);
        let valid = before is Some && before->0.continued_by(p, gap);
        assert(!valid);
        lemma_recorded_quiet(
            DiagnosticsView { progress: put(st.progress, key, p), ..st },
            id,
            None,
            valid || d.diskstats_in_flight == 0,
            now,
        );
        assert forall|k: Seq<char>|
            (#[trigger] find(r.progress, k)) matches Some(p) ==> p.at == at && p.since is None by {
            law_put_then_find(st.progress, key, p, k);
            let old_progress = find(st.progress, k);
        }
    }
}

/// The state of a member needs no history: a bad one that was found may be seen
/// again at once.
proof fn lemma_states_need_no_history(key: Seq<char>)
    ensures
        !needs_history("device:"@ + key + ":state"@),
{
    let id = "device:"@ + key + ":state"@;
    reveal_strlit("device:");
    reveal_strlit(":state");
    reveal_strlit(":no-completions");
    reveal_strlit(":errors");
    reveal_strlit("devices:correlated-errors");
    reveal_strlit("journal:pressure");
    reveal_strlit("journal:write-buffer");
    reveal_strlit("allocator:pressure");
    let n = id.len();
    assert(id[n - 1] == 'e');
    assert(id[0] == 'd');
    if has_suffix(id, ":no-completions"@) {
        assert(id.skip(n - 15)[14] == ":no-completions"@[14]);
    }
    if has_suffix(id, ":errors"@) {
        assert(id.skip(n - 7)[6] == ":errors"@[6]);
    }
    assert("devices:correlated-errors"@[24] == 's');
    assert("journal:pressure"@[0] == 'j');
    assert("journal:write-buffer"@[0] == 'j');
    assert("allocator:pressure"@[0] == 'a');
}

proof fn lemma_recovery_quiet(st: DiagnosticsView, id: Seq<char>, current: (Seq<char>, bool))
    requires
        all_quiet(st.findings),
    ensures
        all_quiet(with_recovery(st, id, current).findings),
{
    if let Some(f) = find(st.findings, id) {
        let p = |e: (Seq<char>, DiagnosticView)| quiet(e);
        lemma_all_found(st.findings, id, p);
        lemma_all_put(
            st.findings,
            id,
            DiagnosticView {
                evidence: f.evidence.push(
                    "Recovery observed: "@ + current.0 + " / online="@
                        + crate::diagnostics::truth(current.1),
                ),
                ..f
            },
            p,
        );
    }
}

proof fn lemma_state_anew(
    st: DiagnosticsView,
    d: DeviceInfoView,
    key: Seq<char>,
    sampled_at: Option<Instant>,
    now: Instant,
)
    requires
        anew(st, sampled_at, now),
    ensures
        anew(state_sampled(st, d, key, now), sampled_at, now),
{
    let id = "device:"@ + key + ":state"@;
    lemma_states_need_no_history(key);
    match (d.allocation.state, d.allocation.online) {
        (Some(state), Some(online)) => {
            let current = (state, online);
            let previous = find(st.member_states, key);
            let k = DiagnosticsView { member_states: put(st.member_states, key, current), ..st };
            let seen = state_observation(k, d, key, current, previous);
            let valid = previous is Some || open_incident(k, id) is Some;
            lemma_recorded_quiet(k, id, seen, valid, now);
            lemma_recovery_quiet(recorded(k, id, seen, valid, now), id, current);
            let after = state_sampled(st, d, key, now);
            assert(after.counters == st.counters && after.progress == st.progress);
        },
        _ => {
            lemma_recorded_quiet(
                DiagnosticsView { member_states: without(st.member_states, key), ..st },
                id,
                None,
                false,
                now,
            );
        },
    }
}

proof fn lemma_errors_read_anew(
    st: DiagnosticsView,
    key: Seq<char>,
    counts: Seq<(Seq<char>, u64)>,
    sampled_at: Option<Instant>,
    now: Instant,
    gap: Duration,
)
    requires
        anew(st, sampled_at, now),
    ensures
        anew(errors_read(st, key, counts, now, gap).0, sampled_at, now),
        errors_read(st, key, counts, now, gap).1.len() == 0,
    decreases counts.len(),
{
    if counts.len() > 0 {
        lemma_errors_read_anew(st, key, counts.drop_last(), sampled_at, now, gap);
        let before = errors_read(st, key, counts.drop_last(), now, gap).0;
        let (name, n) = counts.last();
        lemma_counter_anew(before, "errors:"@ + key + ":"@ + name, now, Some(n), None, gap);
    }
}

proof fn lemma_errors_anew(
    st: DiagnosticsView,
    d: DeviceInfoView,
    key: Seq<char>,
    sampled_at: Option<Instant>,
    now: Instant,
    gap: Duration,
)
    requires
        anew(st, sampled_at, now),
    ensures
        anew(errors_sampled(st, d, key, now, gap).0, sampled_at, now),
        !errors_sampled(st, d, key, now, gap).1,
{
    let id = "device:"@ + key + ":errors"@;
    match d.error_counts {
        None => {
            lemma_recorded_quiet(
                DiagnosticsView { error_shapes: without(st.error_shapes, key), ..st },
                id,
                None,
                false,
                now,
            );
        },
        Some(counts) => {
            let shape = keys_of(counts);
            let k = if counts.len() > 0 {
                DiagnosticsView { error_shapes: put(st.error_shapes, key, shape), ..st }
            } else {
                st
            };
            lemma_errors_read_anew(k, key, counts, sampled_at, now, gap);
            let (read, texts, continued) = errors_read(k, key, counts, now, gap);
            assert forall|valid: bool|
                all_quiet((#[trigger] recorded(read, id, None, valid, now)).findings) by {
                lemma_recorded_quiet(read, id, None, valid, now);
            }
        },
    }
}

proof fn lemma_devices_anew(
    st: DiagnosticsView,
    devices: Seq<DeviceInfoView>,
    sampled_at: Option<Instant>,
    fresh: bool,
    now: Instant,
    gap: Duration,
)
    requires
        anew(st, sampled_at, now),
    ensures
        anew(devices_sampled(st, devices, sampled_at, fresh, now, gap).0, sampled_at, now),
        devices_sampled(st, devices, sampled_at, fresh, now, gap).1.len() == 0,
    decreases devices.len(),
{
    if devices.len() > 0 {
        let rest = devices.drop_last();
        lemma_devices_anew(st, rest, sampled_at, fresh, now, gap);
        let before = devices_sampled(st, rest, sampled_at, fresh, now, gap).0;
        let d = devices.last();
        let s1 = match sampled_at {
            Some(at) => progressed(before, d, d.key(), at, now, gap),
            None => DiagnosticsView { progress: without(before.progress, d.key()), ..before },
        };
        if let Some(at) = sampled_at {
            lemma_progressed_anew(before, d, d.key(), at, now, gap);
        }
        if fresh {
            lemma_state_anew(s1, d, d.key(), sampled_at, now);
            let s2 = state_sampled(s1, d, d.key(), now);
            lemma_errors_anew(s2, d, d.key(), sampled_at, now, gap);
        }
    }
}

proof fn lemma_journal_read_anew(
    st: DiagnosticsView,
    snap: FsSnapshotView,
    now: Instant,
    gap: Duration,
)
    requires
        counters_new(st, now),
    ensures
        journal_read(st, snap, now, gap).0.findings == st.findings,
        ({
            let j = journal_read(st, snap, now, gap).1;
            &&& j.space is None && j.flight is None && j.open is None
            &&& j.buffer is None && j.allocate is None
        }),
{
    assert forall|s: DiagnosticsView, name: Seq<char>| counters_new(s, now) implies {
        let r = #[trigger] blocked_read(s, snap, name, now, gap);
        counters_new(r.0, now) && r.1 is None && r.0.findings == s.findings
    } by {
        lemma_counter_anew(
            s,
            "blocked:"@ + name,
            now,
            blocked_count(snap.blocked_stats, name),
            None,
            gap,
        );
    }
    assert forall|s: DiagnosticsView, name: Seq<char>|
        (#[trigger] operation_read(s, snap, name, now, gap)).0.findings == s.findings by {}
}

proof fn lemma_journal_anew(st: DiagnosticsView, snap: FsSnapshotView, now: Instant, gap: Duration)
    requires
        counters_new(st, now),
        all_quiet(st.findings),
    ensures
        all_quiet(journal_sampled(st, snap, now, gap).findings),
{
    lemma_journal_read_anew(st, snap, now, gap);
    let j = journal_read(st, snap, now, gap).1;
    assert(!needs_history("journal:entry-occupancy"@)) by {
        reveal_strlit("journal:entry-occupancy");
        reveal_strlit(":no-completions");
        reveal_strlit(":errors");
        reveal_strlit("devices:correlated-errors");
        reveal_strlit("journal:pressure");
        reveal_strlit("journal:write-buffer");
        reveal_strlit("allocator:pressure");
        let id = "journal:entry-occupancy"@;
        let n = id.len();
        if has_suffix(id, ":no-completions"@) {
            assert(id.skip(n - 15)[14] == ":no-completions"@[14]);
        }
        if has_suffix(id, ":errors"@) {
            assert(id.skip(n - 7)[6] == ":errors"@[6]);
        }
        assert("devices:correlated-errors"@[0] == 'd');
        assert("journal:pressure"@.len() == 16);
        assert("journal:write-buffer"@.len() == 20);
        assert("allocator:pressure"@[0] == 'a');
    }
    assert forall|s: DiagnosticsView, id: Seq<char>, seen: Option<ObservationView>, valid: bool|
        all_quiet(s.findings) && (seen is None || !needs_history(id)) implies all_quiet(
        (#[trigger] recorded(s, id, seen, valid, now)).findings,
    ) by {
        lemma_recorded_quiet(s, id, seen, valid, now);
    }
}

/// After a gap, where the clock did not advance, or on another filesystem, nothing
/// that needs a history is found: no stall, no new errors on a member or on
/// several, no pressure on the journal, the write buffer or the allocator.
pub proof fn law_nothing_with_a_history_is_active_after_a_gap(
    st: DiagnosticsView,
    fs: Seq<char>,
    snap: FsSnapshotView,
    now: Instant,
    interval: Duration,
    id: Seq<char>,
)
    requires
        st.filesystem != fs || (st.last_update is Some && !(st.last_update->0 < now && now
            - st.last_update->0 <= gap_of(interval))),
        needs_history(id),
    ensures
        find(updated(st, fs, snap, now, interval).findings, id) matches Some(f) ==> f.status
            != Status::Active,
{
    let gap = gap_of(interval);
    let s0 = started(st, fs, now, gap);
    let at = snap.diskstats_sampled_at;
    let fresh = is_fresh(snap, now, gap);
    if st.filesystem == fs {
        assert(s0.findings == all_staled(st.findings, now));
    } else {
        assert(s0.findings.len() == 0);
    }
    assert(s0.counters.len() == 0 && s0.progress.len() == 0);
    assert(anew(s0, at, now));
    lemma_devices_anew(s0, snap.devices, at, fresh, now, gap);
    let (d1, erring, valid) = devices_sampled(s0, snap.devices, at, fresh, now, gap);
    let keys = member_keys(snap.devices);
    let d2 = DiagnosticsView {
        progress: with_keys(d1.progress, keys),
        member_states: with_keys(d1.member_states, keys),
        error_shapes: with_keys(d1.error_shapes, keys),
        ..d1
    };
    let could = fresh && snap.devices.len() > 0 && valid;
    assert(cluster_seen(erring) is None);
    lemma_recorded_quiet(d2, "devices:correlated-errors"@, None, could, now);
    let s1 = members_sampled(s0, snap, now, gap);
    assert(s1 == recorded(d2, "devices:correlated-errors"@, None, could, now));
    assert(s1.counters == d1.counters);
    assert(counters_new(s1, now));
    lemma_journal_anew(s1, snap, now, gap);
    let s2 = if fresh {
        journal_sampled(s1, snap, now, gap)
    } else {
        DiagnosticsView { member_states: Seq::empty(), error_shapes: Seq::empty(), ..s1 }
    };
    let p = |e: (Seq<char>, DiagnosticView)| quiet(e);
    lemma_all_kept(s2.findings, s2.seen, now, p);
    let k = kept(s2.findings, s2.seen, now);
    lemma_all_bounded(k, p);
    let r = updated(st, fs, snap, now, interval).findings;
    assert(r == bounded(k));
    if find(r, id) is Some {
        lemma_all_found(r, id, p);
    }
}

// ------------------------------------------------------ on a change of filesystem

spec fn all_recent(s: Seq<(Seq<char>, DiagnosticView)>, now: Instant) -> bool {
    all_are(s, |e: (Seq<char>, DiagnosticView)| recent(e, now))
}

proof fn lemma_recorded_recent(
    st: DiagnosticsView,
    id: Seq<char>,
    seen: Option<ObservationView>,
    valid: bool,
    now: Instant,
)
    requires
        all_recent(st.findings, now),
    ensures
        all_recent(recorded(st, id, seen, valid, now).findings, now),
{
    let p = |e: (Seq<char>, DiagnosticView)| recent(e, now);
    let found = find(st.findings, id);
    if found is Some {
        lemma_all_found(st.findings, id, p);
    }
    match seen {
        Some(o) => {
            let d = DiagnosticView {
                id,
                severity: o.severity,
                confidence: o.confidence,
                summary: o.summary,
                evidence: o.evidence,
                action: o.action,
                criteria: ""@,
                first_seen: now,
                last_seen: now,
                status_since: now,
                status: Status::Active,
            };
            lemma_all_put(st.findings, id, d, p);
        },
        None => {
            if let Some(d) = found {
                let status = if valid {
                    Status::Resolved
                } else {
                    Status::Stale
                };
                let t = if status == d.status {
                    d.status_since
                } else {
                    now
                };
                lemma_all_put(
                    st.findings,
                    id,
                    DiagnosticView { status, status_since: t, ..d },
                    p,
                );
            }
        },
    }
}

proof fn lemma_state_recent(st: DiagnosticsView, d: DeviceInfoView, key: Seq<char>, now: Instant)
    requires
        all_recent(st.findings, now),
    ensures
        all_recent(state_sampled(st, d, key, now).findings, now),
{
    let id = "device:"@ + key + ":state"@;
    assert forall|s: DiagnosticsView, seen: Option<ObservationView>, valid: bool|
        all_recent(s.findings, now) implies all_recent(
        (#[trigger] recorded(s, id, seen, valid, now)).findings,
        now,
    ) by {
        lemma_recorded_recent(s, id, seen, valid, now);
    }
    assert forall|s: DiagnosticsView, current: (Seq<char>, bool)|
        all_recent(s.findings, now) implies all_recent(
        (#[trigger] with_recovery(s, id, current)).findings,
        now,
    ) by {
        if let Some(f) = find(s.findings, id) {
            let p = |e: (Seq<char>, DiagnosticView)| recent(e, now);
            lemma_all_found(s.findings, id, p);
            lemma_all_put(
                s.findings,
                id,
                DiagnosticView {
                    evidence: f.evidence.push(
                        "Recovery observed: "@ + current.0 + " / online="@
                            + crate::diagnostics::truth(current.1),
                    ),
                    ..f
                },
                p,
            );
        }
    }
}

proof fn lemma_errors_read_keep_findings(
    st: DiagnosticsView,
    key: Seq<char>,
    counts: Seq<(Seq<char>, u64)>,
    now: Instant,
    gap: Duration,
)
    ensures
        errors_read(st, key, counts, now, gap).0.findings == st.findings,
    decreases counts.len(),
{
    if counts.len() > 0 {
        lemma_errors_read_keep_findings(st, key, counts.drop_last(), now, gap);
    }
}

proof fn lemma_errors_recent(
    st: DiagnosticsView,
    d: DeviceInfoView,
    key: Seq<char>,
    now: Instant,
    gap: Duration,
)
    requires
        all_recent(st.findings, now),
    ensures
        all_recent(errors_sampled(st, d, key, now, gap).0.findings, now),
{
    let id = "device:"@ + key + ":errors"@;
    assert forall|s: DiagnosticsView, seen: Option<ObservationView>, valid: bool|
        all_recent(s.findings, now) implies all_recent(
        (#[trigger] recorded(s, id, seen, valid, now)).findings,
        now,
    ) by {
        lemma_recorded_recent(s, id, seen, valid, now);
    }
    if let Some(counts) = d.error_counts {
        let shape = keys_of(counts);
        let k = if counts.len() > 0 {
            DiagnosticsView { error_shapes: put(st.error_shapes, key, shape), ..st }
        } else {
            st
        };
        lemma_errors_read_keep_findings(k, key, counts, now, gap);
    }
}

proof fn lemma_devices_recent(
    st: DiagnosticsView,
    devices: Seq<DeviceInfoView>,
    sampled_at: Option<Instant>,
    fresh: bool,
    now: Instant,
    gap: Duration,
)
    requires
        all_recent(st.findings, now),
    ensures
        all_recent(devices_sampled(st, devices, sampled_at, fresh, now, gap).0.findings, now),
    decreases devices.len(),
{
    if devices.len() > 0 {
        let rest = devices.drop_last();
        lemma_devices_recent(st, rest, sampled_at, fresh, now, gap);
        let before = devices_sampled(st, rest, sampled_at, fresh, now, gap).0;
        let d = devices.last();
        assert forall|s: DiagnosticsView, id: Seq<char>, seen: Option<ObservationView>, valid: bool|
            all_recent(s.findings, now) implies all_recent(
            (#[trigger] recorded(s, id, seen, valid, now)).findings,
            now,
        ) by {
            lemma_recorded_recent(s, id, seen, valid, now);
        }
        let s1 = match sampled_at {
            Some(at) => progressed(before, d, d.key(), at, now, gap),
            None => DiagnosticsView { progress: without(before.progress, d.key()), ..before },
        };
        assert(all_recent(s1.findings, now));
        if fresh {
            lemma_state_recent(s1, d, d.key(), now);
            lemma_errors_recent(state_sampled(s1, d, d.key(), now), d, d.key(), now, gap);
        }
    }
}

proof fn lemma_journal_recent(
    st: DiagnosticsView,
    snap: FsSnapshotView,
    now: Instant,
    gap: Duration,
)
    requires
        all_recent(st.findings, now),
    ensures
        all_recent(journal_sampled(st, snap, now, gap).findings, now),
{
    lemma_journal_read_keeps_findings(st, snap, now, gap);
    assert forall|s: DiagnosticsView, id: Seq<char>, seen: Option<ObservationView>, valid: bool|
        all_recent(s.findings, now) implies all_recent(
        (#[trigger] recorded(s, id, seen, valid, now)).findings,
        now,
    ) by {
        lemma_recorded_recent(s, id, seen, valid, now);
    }
}

/// Nothing found of another filesystem is left after a change: whatever is found
/// then was first seen in this update.
pub proof fn law_findings_start_with_their_filesystem(
    st: DiagnosticsView,
    fs: Seq<char>,
    snap: FsSnapshotView,
    now: Instant,
    interval: Duration,
)
    requires
        st.filesystem != fs,
    ensures
        forall|i: int|
            0 <= i < updated(st, fs, snap, now, interval).findings.len() ==> (
            #[trigger] updated(st, fs, snap, now, interval).findings[i]).1.first_seen == now,
{
    let gap = gap_of(interval);
    let s0 = started(st, fs, now, gap);
    let at = snap.diskstats_sampled_at;
    let fresh = is_fresh(snap, now, gap);
    assert(s0.findings.len() == 0);
    assert(all_recent(s0.findings, now));
    lemma_devices_recent(s0, snap.devices, at, fresh, now, gap);
    let s1 = members_sampled(s0, snap, now, gap);
    assert forall|s: DiagnosticsView, id: Seq<char>, seen: Option<ObservationView>, valid: bool|
        all_recent(s.findings, now) implies all_recent(
        (#[trigger] recorded(s, id, seen, valid, now)).findings,
        now,
    ) by {
        lemma_recorded_recent(s, id, seen, valid, now);
    }
    assert(all_recent(s1.findings, now));
    lemma_journal_recent(s1, snap, now, gap);
    let s2 = if fresh {
        journal_sampled(s1, snap, now, gap)
    } else {
        DiagnosticsView { member_states: Seq::empty(), error_shapes: Seq::empty(), ..s1 }
    };
    let p = |e: (Seq<char>, DiagnosticView)| recent(e, now);
    lemma_all_kept(s2.findings, s2.seen, now, p);
    let k = kept(s2.findings, s2.seen, now);
    lemma_all_bounded(k, p);
    let r = updated(st, fs, snap, now, interval).findings;
    assert(r == bounded(k));
    assert forall|i: int| 0 <= i < r.len() implies (#[trigger] r[i]).1.first_seen == now by {
        assert(p(r[i]));
    }
}

} // verus!
