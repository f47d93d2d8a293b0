//! What makes a finding: each diagnostic is held against its own counters, and its
//! finding says what they show.

use crate::diagnostics::{
    blocked_count, blocked_read, counter_read, errors_read, errors_sampled, gap_of, is_fresh,
    journal_read, journal_sampled, operation_read, progressed, recorded, sampled, stat_of,
    state_sampled, updated, DiagnosticView, DiagnosticsView, ObservationView, Progress, Status,
};
use crate::double::{quotient, whole};
use crate::soundness::{
    law_the_oldest_inactive_findings_are_dropped, lemma_journal_read_keeps_findings,
    lemma_other_findings_stay, lemma_recorded_now, sound,
};
use crate::strmap::{find, law_put_then_find, law_without_then_find, put};
use crate::sysfs::{DeviceInfoView, Duration, FsSnapshotView, Instant, TimeStatFullView};
use crate::targets::Severity;
use crate::window::{observed, CounterEvidence, CounterWindowView};
use vstd::prelude::*;

verus! {

// ------------------------------------------------------------------------- gaps

/// The longest time between samples that counts as continuous is three intervals,
/// but at least five seconds and at most a minute.
pub proof fn law_three_intervals_are_continuous(interval: Duration)
    ensures
        3 * interval < 5_000_000_000 ==> gap_of(interval) == 5_000_000_000,
        5_000_000_000 <= 3 * interval <= 60_000_000_000 ==> gap_of(interval) == 3 * interval,
        3 * interval > 60_000_000_000 ==> gap_of(interval) == 60_000_000_000,
{
}

// --------------------------------------------------------------------- findings

/// A finding says what was observed, since when it is seen without a break, and that
/// it was seen now; what was observed of others stays.
pub proof fn law_a_finding_says_what_was_observed(
    st: DiagnosticsView,
    id: Seq<char>,
    o: ObservationView,
    valid: bool,
    now: Instant,
    other: Seq<char>,
)
    ensures
        ({
            let before = find(st.findings, id);
            let after = recorded(st, id, Some(o), valid, now).findings;
            &&& find(after, id) matches Some(f) && {
                &&& f.id == id && f.status == Status::Active && f.last_seen == now
                &&& f.severity == o.severity && f.confidence == o.confidence
                &&& f.summary == o.summary && f.evidence == o.evidence && f.action == o.action
                &&& before is Some && before->0.status == Status::Active ==> f.first_seen
                    == before->0.first_seen
                &&& before is None || before->0.status != Status::Active ==> f.first_seen == now
            }
            &&& other != id ==> find(after, other) == find(st.findings, other)
        }),
{
    let r = recorded(st, id, Some(o), valid, now).findings;
    let f = choose|f: DiagnosticView| r == #[trigger] put(st.findings, id, f);
    let first = match find(st.findings, id) {
        Some(d) => if d.status == Status::Active {
            d.first_seen
        } else {
            now
        },
        None => now,
    };
    let d = DiagnosticView {
        id,
        severity: o.severity,
        confidence: o.confidence,
        summary: o.summary,
        evidence: o.evidence,
        action: o.action,
        criteria: ""@,
        first_seen: first,
        last_seen: now,
        status_since: first,
        status: Status::Active,
    };
    law_put_then_find(st.findings, id, d, id);
    law_put_then_find(st.findings, id, d, other);
}

// --------------------------------------------------------------------- counters

/// What a counter shows at a reading, given what was known of it.
pub open spec fn shown(
    st: DiagnosticsView,
    key: Seq<char>,
    count: Option<u64>,
    recent_ns: Option<u64>,
    now: Instant,
    gap: Duration,
) -> Option<CounterEvidence> {
    match count {
        Some(n) => observed(
            match find(st.counters, key) {
                Some(w) => w,
                None => CounterWindowView::blank(),
            },
            now,
            n,
            recent_ns,
            gap,
        ).1,
        None => None,
    }
}

/// How often an operation was done, and how long it took lately.
pub open spec fn count_of(t: Option<TimeStatFullView>) -> Option<u64> {
    match t {
        Some(s) => Some(s.count),
        None => None,
    }
}

pub open spec fn recent_of(t: Option<TimeStatFullView>) -> Option<u64> {
    match t {
        Some(s) => if s.recent_valid {
            Some(s.dur_recent_ns)
        } else {
            None
        },
        None => None,
    }
}

proof fn lemma_others_stay(
    st: DiagnosticsView,
    key: Seq<char>,
    now: Instant,
    count: Option<u64>,
    recent_ns: Option<u64>,
    gap: Duration,
    other: Seq<char>,
)
    requires
        other != key,
    ensures
        find(counter_read(st, key, now, count, recent_ns, gap).0.counters, other) == find(
            st.counters,
            other,
        ),
{
    match count {
        Some(n) => {
            let w = match find(st.counters, key) {
                Some(w) => w,
                None => CounterWindowView::blank(),
            };
            law_put_then_find(st.counters, key, observed(w, now, n, recent_ns, gap).0, other);
        },
        None => {
            law_without_then_find(st.counters, key, other);
        },
    }
}

proof fn lemma_heads_part(a: Seq<char>, b: Seq<char>, c: Seq<char>)
    requires
        b != c,
    ensures
        a + b != a + c,
{
    if a + b == a + c {
        assert((a + b).skip(a.len() as int) =~= b);
        assert((a + c).skip(a.len() as int) =~= c);
    }
}

/// The length of each key of the journal's counters, in the order of reading.
spec fn length_at(i: int) -> nat {
    if i == 0 {
        28
    } else if i == 1 {
        29
    } else if i == 2 {
        24
    } else if i == 3 {
        25
    } else if i == 4 {
        16
    } else if i == 5 {
        19
    } else if i == 6 {
        21
    } else if i == 7 {
        17
    } else if i == 8 {
        23
    } else if i == 9 {
        27
    } else {
        18
    }
}

/// Whether a key has none of the first lengths.
spec fn is_unread(key: Seq<char>, n: int) -> bool {
    forall|i: int| 0 <= i < n ==> key.len() != #[trigger] length_at(i)
}

/// Whether no counter changed but those of the first lengths.
spec fn untouched(st: DiagnosticsView, s: DiagnosticsView, n: int) -> bool {
    forall|key: Seq<char>|
        is_unread(key, n) ==> #[trigger] find(s.counters, key) == find(st.counters, key)
}

proof fn lemma_reading_step(
    st: DiagnosticsView,
    s: DiagnosticsView,
    key: Seq<char>,
    now: Instant,
    count: Option<u64>,
    recent_ns: Option<u64>,
    gap: Duration,
    n: int,
)
    requires
        0 <= n <= 10,
        key.len() == length_at(n),
        untouched(st, s, n),
    ensures
        counter_read(s, key, now, count, recent_ns, gap).1 == shown(
            st,
            key,
            count,
            recent_ns,
            now,
            gap,
        ),
        untouched(st, counter_read(s, key, now, count, recent_ns, gap).0, n + 1),
{
    assert(is_unread(key, n));
    assert(find(s.counters, key) == find(st.counters, key));
    let t = counter_read(s, key, now, count, recent_ns, gap).0;
    assert forall|other: Seq<char>| is_unread(other, n + 1) implies #[trigger] find(
        t.counters,
        other,
    ) == find(st.counters, other) by {
        assert(other.len() != length_at(n));
        lemma_others_stay(s, key, now, count, recent_ns, gap, other);
        assert(is_unread(other, n));
        assert(find(s.counters, other) == find(st.counters, other));
    }
}

proof fn lemma_key_lengths()
    ensures
        ("blocked:"@ + "journal_low_on_space"@).len() == 28,
        ("blocked:"@ + "journal_max_in_flight"@).len() == 29,
        ("blocked:"@ + "journal_max_open"@).len() == 24,
        ("blocked:"@ + "write_buffer_full"@).len() == 25,
        ("blocked:"@ + "allocate"@).len() == 16,
        "journal_flush_write"@.len() == 19,
        "journal_noflush_write"@.len() == 21,
        "journal_flush_seq"@.len() == 17,
        "journal_pin_flush_btree"@.len() == 23,
        "journal_pin_flush_key_cache"@.len() == 27,
        "journal_seq_ondisk"@.len() == 18,
{
    reveal_strlit("blocked:");
    reveal_strlit("journal_low_on_space");
    reveal_strlit("journal_max_in_flight");
    reveal_strlit("journal_max_open");
    reveal_strlit("write_buffer_full");
    reveal_strlit("allocate");
    reveal_strlit("journal_flush_write");
    reveal_strlit("journal_noflush_write");
    reveal_strlit("journal_flush_seq");
    reveal_strlit("journal_pin_flush_btree");
    reveal_strlit("journal_pin_flush_key_cache");
    reveal_strlit("journal_seq_ondisk");
}

proof fn lemma_blocked_step(
    st: DiagnosticsView,
    s: DiagnosticsView,
    snap: FsSnapshotView,
    name: Seq<char>,
    now: Instant,
    gap: Duration,
    n: int,
)
    requires
        0 <= n <= 10,
        ("blocked:"@ + name).len() == length_at(n),
        untouched(st, s, n),
    ensures
        blocked_read(s, snap, name, now, gap).1 == shown(
            st,
            "blocked:"@ + name,
            blocked_count(snap.blocked_stats, name),
            None,
            now,
            gap,
        ),
        untouched(st, blocked_read(s, snap, name, now, gap).0, n + 1),
{
    let count = blocked_count(snap.blocked_stats, name);
    lemma_reading_step(st, s, "blocked:"@ + name, now, count, None, gap, n);
}

proof fn lemma_operation_step(
    st: DiagnosticsView,
    s: DiagnosticsView,
    snap: FsSnapshotView,
    name: Seq<char>,
    now: Instant,
    gap: Duration,
    n: int,
)
    requires
        0 <= n <= 10,
        name.len() == length_at(n),
        untouched(st, s, n),
    ensures
        operation_read(s, snap, name, now, gap).1 == shown(
            st,
            name,
            count_of(stat_of(snap.all_time_stats, name)),
            recent_of(stat_of(snap.all_time_stats, name)),
            now,
            gap,
        ),
        untouched(st, operation_read(s, snap, name, now, gap).0, n + 1),
{
    let t = stat_of(snap.all_time_stats, name);
    lemma_reading_step(st, s, name, now, count_of(t), recent_of(t), gap, n);
}

/// Each line of evidence on the journal is that of its own counter: of what blocked
/// by its name, and of operations by theirs.
pub proof fn law_journal_evidence_is_of_its_counters(
    st: DiagnosticsView,
    snap: FsSnapshotView,
    now: Instant,
    gap: Duration,
)
    ensures
        ({
            let j = journal_read(st, snap, now, gap).1;
            let space = blocked_count(snap.blocked_stats, "journal_low_on_space"@);
            let flight = blocked_count(snap.blocked_stats, "journal_max_in_flight"@);
            let open = blocked_count(snap.blocked_stats, "journal_max_open"@);
            let full = blocked_count(snap.blocked_stats, "write_buffer_full"@);
            let alloc = blocked_count(snap.blocked_stats, "allocate"@);
            &&& j.space == shown(st, "blocked:"@ + "journal_low_on_space"@, space, None, now, gap)
            &&& j.flight == shown(st, "blocked:"@ + "journal_max_in_flight"@, flight, None, now, gap)
            &&& j.open == shown(st, "blocked:"@ + "journal_max_open"@, open, None, now, gap)
            &&& j.buffer == shown(st, "blocked:"@ + "write_buffer_full"@, full, None, now, gap)
            &&& j.allocate == shown(st, "blocked:"@ + "allocate"@, alloc, None, now, gap)
        }),
        ({
            let j = journal_read(st, snap, now, gap).1;
            let flush = stat_of(snap.all_time_stats, "journal_flush_write"@);
            let noflush = stat_of(snap.all_time_stats, "journal_noflush_write"@);
            let seq = stat_of(snap.all_time_stats, "journal_flush_seq"@);
            let btree = stat_of(snap.all_time_stats, "journal_pin_flush_btree"@);
            let cache = stat_of(snap.all_time_stats, "journal_pin_flush_key_cache"@);
            &&& j.flush == shown(
                st,
                "journal_flush_write"@,
                count_of(flush),
                recent_of(flush),
                now,
                gap,
            )
            &&& j.noflush == shown(
                st,
                "journal_noflush_write"@,
                count_of(noflush),
                recent_of(noflush),
                now,
                gap,
            )
            &&& j.flush_seq == shown(
                st,
                "journal_flush_seq"@,
                count_of(seq),
                recent_of(seq),
                now,
                gap,
            )
            &&& j.pin_btree == shown(
                st,
                "journal_pin_flush_btree"@,
                count_of(btree),
                recent_of(btree),
                now,
                gap,
            )
            &&& j.pin_cache == shown(
                st,
                "journal_pin_flush_key_cache"@,
                count_of(cache),
                recent_of(cache),
                now,
                gap,
            )
            &&& j.ondisk == shown(
                st,
                "journal_seq_ondisk"@,
                snap.journal.seq_ondisk,
                None,
                now,
                gap,
            )
        }),
{
    lemma_key_lengths();
    let s1 = blocked_read(st, snap, "journal_low_on_space"@, now, gap).0;
    let s2 = blocked_read(s1, snap, "journal_max_in_flight"@, now, gap).0;
    let s3 = blocked_read(s2, snap, "journal_max_open"@, now, gap).0;
    let s4 = blocked_read(s3, snap, "write_buffer_full"@, now, gap).0;
    let s5 = blocked_read(s4, snap, "allocate"@, now, gap).0;
    let s6 = operation_read(s5, snap, "journal_flush_write"@, now, gap).0;
    let s7 = operation_read(s6, snap, "journal_noflush_write"@, now, gap).0;
    let s8 = operation_read(s7, snap, "journal_flush_seq"@, now, gap).0;
    let s9 = operation_read(s8, snap, "journal_pin_flush_btree"@, now, gap).0;
    let s10 = operation_read(s9, snap, "journal_pin_flush_key_cache"@, now, gap).0;
    lemma_blocked_step(st, st, snap, "journal_low_on_space"@, now, gap, 0);
    lemma_blocked_step(st, s1, snap, "journal_max_in_flight"@, now, gap, 1);
    lemma_blocked_step(st, s2, snap, "journal_max_open"@, now, gap, 2);
    lemma_blocked_step(st, s3, snap, "write_buffer_full"@, now, gap, 3);
    lemma_blocked_step(st, s4, snap, "allocate"@, now, gap, 4);
    lemma_operation_step(st, s5, snap, "journal_flush_write"@, now, gap, 5);
    lemma_operation_step(st, s6, snap, "journal_noflush_write"@, now, gap, 6);
    lemma_operation_step(st, s7, snap, "journal_flush_seq"@, now, gap, 7);
    lemma_operation_step(st, s8, snap, "journal_pin_flush_btree"@, now, gap, 8);
    lemma_operation_step(st, s9, snap, "journal_pin_flush_key_cache"@, now, gap, 9);
    lemma_reading_step(
        st,
        s10,
        "journal_seq_ondisk"@,
        now,
        snap.journal.seq_ondisk,
        None,
        gap,
        10,
    );
}

proof fn lemma_ids_differ()
    ensures
        "journal:pressure"@ != "journal:write-buffer"@,
        "journal:pressure"@ != "allocator:pressure"@,
        "journal:pressure"@ != "journal:entry-occupancy"@,
        "journal:write-buffer"@ != "allocator:pressure"@,
        "journal:write-buffer"@ != "journal:entry-occupancy"@,
        "allocator:pressure"@ != "journal:entry-occupancy"@,
{
    reveal_strlit("journal:pressure");
    reveal_strlit("journal:write-buffer");
    reveal_strlit("allocator:pressure");
    reveal_strlit("journal:entry-occupancy");
    assert("journal:pressure"@.len() == 16);
    assert("journal:write-buffer"@.len() == 20);
    assert("allocator:pressure"@.len() == 18);
    assert("journal:entry-occupancy"@.len() == 23);
}

/// A finding of the given state is found.
pub open spec fn is_active(st: DiagnosticsView, id: Seq<char>) -> bool {
    find(st.findings, id) is Some && (find(st.findings, id)->0).status == Status::Active
}

/// Whether what a counter shows is that it rose.
pub open spec fn rose(w: Option<CounterEvidence>) -> bool {
    w is Some && w->0.events > 0
}

/// The write buffer and the allocator are under pressure exactly where their own
/// counters rose, and the occupancy of the journal is high exactly where more than
/// eight tenths of its entries are dirty.
pub proof fn law_pressure_follows_its_counter(
    st: DiagnosticsView,
    snap: FsSnapshotView,
    now: Instant,
    gap: Duration,
)
    ensures
        ({
            let after = journal_sampled(st, snap, now, gap);
            let full = blocked_count(snap.blocked_stats, "write_buffer_full"@);
            let alloc = blocked_count(snap.blocked_stats, "allocate"@);
            &&& is_active(after, "journal:write-buffer"@) <==> rose(
                shown(st, "blocked:"@ + "write_buffer_full"@, full, None, now, gap),
            )
            &&& is_active(after, "allocator:pressure"@) <==> rose(
                shown(st, "blocked:"@ + "allocate"@, alloc, None, now, gap),
            )
            &&& is_active(after, "journal:entry-occupancy"@) <==> (
            snap.journal.entries matches Some(e) && e.1 > 0 && quotient(whole(8), whole(10)).less(
                quotient(whole(e.0 as nat), whole(e.1 as nat)),
            ))
        }),
{
    law_journal_evidence_is_of_its_counters(st, snap, now, gap);
    lemma_journal_read_keeps_findings(st, snap, now, gap);
    lemma_ids_differ();
    let (read, j) = journal_read(st, snap, now, gap);
    assert forall|
        s: DiagnosticsView,
        id: Seq<char>,
        seen: Option<ObservationView>,
        valid: bool,
        other: Seq<char>,
    | other != id implies #[trigger] find(recorded(s, id, seen, valid, now).findings, other) == find(
        s.findings,
        other,
    ) by {
        lemma_other_findings_stay(s, id, seen, valid, now, other);
    }
    let s1 = recorded(
        read,
        "journal:pressure"@,
        crate::diagnostics::pressure_seen(j, snap),
        j.space is Some && j.flight is Some && j.open is Some,
        now,
    );
    let buffer = crate::diagnostics::buffer_seen(j.buffer);
    let s2 = recorded(s1, "journal:write-buffer"@, buffer, j.buffer is Some, now);
    lemma_recorded_now(s1, "journal:write-buffer"@, buffer, j.buffer is Some, now);
    let room = crate::diagnostics::allocator_seen(j.allocate);
    let s3 = recorded(s2, "allocator:pressure"@, room, j.allocate is Some, now);
    lemma_recorded_now(s2, "allocator:pressure"@, room, j.allocate is Some, now);
    let filled = crate::diagnostics::occupancy_seen(snap.journal.entries);
    lemma_recorded_now(
        s3,
        "journal:entry-occupancy"@,
        filled,
        snap.journal.entries is Some,
        now,
    );
}

// ---------------------------------------------------------------------- members

/// A member that was seen in another state and is now not writable or not online is
/// found, as critical; it is remembered as it is now.
pub proof fn law_a_member_that_fails_is_found(
    st: DiagnosticsView,
    d: DeviceInfoView,
    key: Seq<char>,
    now: Instant,
    before: (Seq<char>, bool),
    state: Seq<char>,
    online: bool,
)
    requires
        find(st.member_states, key) == Some(before),
        d.allocation.state == Some(state),
        d.allocation.online == Some(online),
        before != (state, online),
        state != "rw"@ || !online,
    ensures
        ({
            let id = "device:"@ + key + ":state"@;
            let after = state_sampled(st, d, key, now);
            &&& is_active(after, id)
            &&& (find(after.findings, id)->0).severity == Severity::Critical
            &&& (find(after.findings, id)->0).last_seen == now
            &&& find(after.member_states, key) == Some((state, online))
        }),
{
    let id = "device:"@ + key + ":state"@;
    let current = (state, online);
    let kept = DiagnosticsView { member_states: put(st.member_states, key, current), ..st };
    law_put_then_find(st.member_states, key, current, key);
    let seen = crate::diagnostics::state_observation(kept, d, key, current, Some(before));
    law_a_finding_says_what_was_observed(kept, id, seen->0, true, now, id);
}

spec fn error_key(key: Seq<char>, name: Seq<char>) -> Seq<char> {
    "errors:"@ + key + ":"@ + name
}

/// No counter of a list is of the given name.
spec fn unnamed(counts: Seq<(Seq<char>, u64)>, name: Seq<char>) -> bool {
    forall|i: int| 0 <= i < counts.len() ==> (#[trigger] counts[i]).0 != name
}

proof fn lemma_errors_leave(
    st: DiagnosticsView,
    key: Seq<char>,
    counts: Seq<(Seq<char>, u64)>,
    now: Instant,
    gap: Duration,
    name: Seq<char>,
)
    requires
        unnamed(counts, name),
    ensures
        find(errors_read(st, key, counts, now, gap).0.counters, error_key(key, name)) == find(
            st.counters,
            error_key(key, name),
        ),
    decreases counts.len(),
{
    if counts.len() > 0 {
        let rest = counts.drop_last();
        assert forall|i: int| 0 <= i < rest.len() implies (#[trigger] rest[i]).0 != name by {
            assert(rest[i] == counts[i]);
        }
        lemma_errors_leave(st, key, rest, now, gap, name);
        let (last, n) = counts.last();
        assert(counts[counts.len() - 1].0 == last);
        lemma_heads_part("errors:"@ + key + ":"@, name, last);
        lemma_others_stay(
            errors_read(st, key, rest, now, gap).0,
            error_key(key, last),
            now,
            Some(n),
            None,
            gap,
            error_key(key, name),
        );
    }
}

/// The counters of a list have names of their own.
pub open spec fn named_apart(counts: Seq<(Seq<char>, u64)>) -> bool {
    forall|i: int, j: int|
        0 <= i < j < counts.len() ==> (#[trigger] counts[i]).0 != (#[trigger] counts[j]).0
}

/// Whether the error counter at a place rose.
pub open spec fn error_rose(
    st: DiagnosticsView,
    key: Seq<char>,
    counts: Seq<(Seq<char>, u64)>,
    i: int,
    now: Instant,
    gap: Duration,
) -> bool {
    rose(
        shown(
            st,
            "errors:"@ + key + ":"@ + counts[i].0,
            Some(counts[i].1),
            None,
            now,
            gap,
        ),
    )
}

proof fn lemma_errors_shown(
    st: DiagnosticsView,
    key: Seq<char>,
    counts: Seq<(Seq<char>, u64)>,
    now: Instant,
    gap: Duration,
)
    requires
        named_apart(counts),
    ensures
        errors_read(st, key, counts, now, gap).1.len() > 0 <==> exists|i: int|
            0 <= i < counts.len() && #[trigger] error_rose(st, key, counts, i, now, gap),
    decreases counts.len(),
{
    if counts.len() > 0 {
        let rest = counts.drop_last();
        let last = counts.len() - 1;
        assert forall|i: int, j: int| 0 <= i < j < rest.len() implies (#[trigger] rest[i]).0 != (
        #[trigger] rest[j]).0 by {
            assert(rest[i] == counts[i] && rest[j] == counts[j]);
        }
        lemma_errors_shown(st, key, rest, now, gap);
        assert forall|i: int| 0 <= i < rest.len() implies (#[trigger] rest[i]).0
            != counts[last].0 by {
            assert(rest[i] == counts[i]);
        }
        lemma_errors_leave(st, key, rest, now, gap, counts[last].0);
        assert forall|i: int| 0 <= i < rest.len() implies #[trigger] error_rose(
            st,
            key,
            rest,
            i,
            now,
            gap,
        ) == error_rose(st, key, counts, i, now, gap) by {
            assert(rest[i] == counts[i]);
        }
        let before = errors_read(st, key, rest, now, gap);
        let full = error_key(key, counts[last].0);
        assert(counter_read(before.0, full, now, Some(counts[last].1), None, gap).1 == shown(
            st,
            full,
            Some(counts[last].1),
            None,
            now,
            gap,
        ));
        assert(errors_read(st, key, counts, now, gap).1.len() > 0 <==> before.1.len() > 0
            || error_rose(st, key, counts, last, now, gap));
        if before.1.len() > 0 {
            let i = choose|i: int|
                0 <= i < rest.len() && #[trigger] error_rose(st, key, rest, i, now, gap);
            assert(error_rose(st, key, counts, i, now, gap));
        }
        if exists|i: int| 0 <= i < counts.len() && #[trigger] error_rose(st, key, counts, i, now, gap) {
            let i = choose|i: int|
                0 <= i < counts.len() && #[trigger] error_rose(st, key, counts, i, now, gap);
            if i < last {
                assert(error_rose(st, key, rest, i, now, gap));
            }
        }
    }
}

/// New errors of a member are found exactly where one of its error counters rose.
pub proof fn law_new_errors_are_found(
    st: DiagnosticsView,
    d: DeviceInfoView,
    key: Seq<char>,
    now: Instant,
    gap: Duration,
    counts: Seq<(Seq<char>, u64)>,
)
    requires
        d.error_counts == Some(counts),
        named_apart(counts),
    ensures
        ({
            let id = "device:"@ + key + ":errors"@;
            let (after, has_errors, could) = errors_sampled(st, d, key, now, gap);
            let new = exists|i: int|
                0 <= i < counts.len() && #[trigger] error_rose(st, key, counts, i, now, gap);
            &&& has_errors <==> new
            &&& is_active(after, id) <==> new
        }),
{
    let id = "device:"@ + key + ":errors"@;
    let shape = crate::diagnostics::keys_of(counts);
    let kept = if counts.len() > 0 {
        DiagnosticsView { error_shapes: put(st.error_shapes, key, shape), ..st }
    } else {
        st
    };
    lemma_errors_shown(kept, key, counts, now, gap);
    assert forall|i: int| #[trigger] error_rose(kept, key, counts, i, now, gap) == error_rose(
        st,
        key,
        counts,
        i,
        now,
        gap,
    ) by {}
    let (read, texts, continued) = errors_read(kept, key, counts, now, gap);
    if texts.len() > 0 {
        let i = choose|i: int|
            0 <= i < counts.len() && #[trigger] error_rose(kept, key, counts, i, now, gap);
        assert(error_rose(st, key, counts, i, now, gap));
    }
    if exists|i: int| 0 <= i < counts.len() && #[trigger] error_rose(st, key, counts, i, now, gap) {
        let i = choose|i: int|
            0 <= i < counts.len() && #[trigger] error_rose(st, key, counts, i, now, gap);
        assert(error_rose(kept, key, counts, i, now, gap));
    }
    assert forall|seen: Option<ObservationView>, valid: bool|
        (find((#[trigger] recorded(read, id, seen, valid, now)).findings, id) matches Some(f)
            && f.status == Status::Active) <==> seen is Some by {
        lemma_recorded_now(read, id, seen, valid, now);
    }
}

// ------------------------------------------------------------------ completions

/// Whether no counter of a device fell from one sample to the next.
pub open spec fn none_fell(a: Progress, b: Progress) -> bool {
    &&& a.reads <= b.reads && a.writes <= b.writes
    &&& a.read_ms <= b.read_ms && a.write_ms <= b.write_ms
    &&& a.io_ms <= b.io_ms && a.weighted_io_ms <= b.weighted_io_ms
    &&& a.discards is Some ==> b.discards is Some && a.discards->0 <= b.discards->0
    &&& a.flushes is Some ==> b.flushes is Some && a.flushes->0 <= b.flushes->0
    &&& a.discards is None ==> b.discards is None
    &&& a.flushes is None ==> b.flushes is None
}

/// A device has stood still since the sample before exactly where that is not too
/// long ago, no counter fell, requests were outstanding both times, and nothing was
/// completed; it counts from the first such sample, one sample more each time.
pub proof fn law_standing_still_is_counted(a: Progress, b: Progress, gap: Duration)
    requires
        b.since is None,
        b.samples == 1,
        a.samples < usize::MAX,
    ensures
        ({
            let still = a.at < b.at && b.at - a.at <= gap && none_fell(a, b) && a.queue > 0 && b.queue
                > 0 && a.reads == b.reads && a.writes == b.writes && a.discards == b.discards
                && a.flushes == b.flushes;
            let next = a.extended(b, gap);
            &&& still ==> next.samples == a.samples + 1 && next.since == Some(
                if a.since is Some {
                    a.since->0
                } else {
                    a.at
                },
            )
            &&& !still ==> next == b
            &&& next.at == b.at && next.queue == b.queue && next.reads == b.reads && next.writes
                == b.writes
        }),
{
}

/// What a device shows at a sample is read from its own counters.
pub proof fn law_progress_is_of_the_device(d: DeviceInfoView, at: Instant)
    ensures
        ({
            let p = Progress::reading(d, at);
            &&& p.at == at && p.since is None && p.samples == 1
            &&& p.reads == d.diskstats_reads && p.writes == d.diskstats_writes
            &&& p.read_ms == d.diskstats_read_ms && p.write_ms == d.diskstats_write_ms
            &&& p.io_ms == d.diskstats_io_ms && p.weighted_io_ms == d.diskstats_weighted_io_ms
            &&& p.discards == d.diskstats_discards && p.flushes == d.diskstats_flushes
            &&& p.queue == d.diskstats_in_flight
        }),
{
}

/// A sample that is not valid, is of the future or too old, or is of a device that is
/// offline leaves nothing known of its completions; any other is remembered.
pub proof fn law_only_good_samples_are_remembered(
    st: DiagnosticsView,
    d: DeviceInfoView,
    key: Seq<char>,
    at: Instant,
    now: Instant,
    gap: Duration,
)
    ensures
        ({
            let good = d.diskstats_valid && at <= now && now - at <= gap && d.allocation.online
                != Some(false);
            let after = find(progressed(st, d, key, at, now, gap).progress, key);
            &&& !good ==> after is None
            &&& good ==> after is Some && after->0.at == at && after->0.reads == d.diskstats_reads
        }),
{
    law_without_then_find(st.progress, key, key);
    let p = Progress::reading(d, at);
    let q = match find(st.progress, key) {
        Some(o) => o.extended(p, gap),
        None => p,
    };
    law_put_then_find(st.progress, key, q, key);
}

/// Samples of a filesystem are fresh where their collection started no longer ago
/// than the gap.
pub proof fn law_fresh_samples_are_recent(snap: FsSnapshotView, now: Instant, gap: Duration)
    ensures
        is_fresh(snap, now, gap) <==> snap.collection_started_at is Some
            && snap.collection_started_at->0 <= now && now - snap.collection_started_at->0 <= gap,
{
}

/// A finding that an update came to and left active is among those that it keeps, as
/// it is; one that it did not come to is stale where it is kept.
pub proof fn law_active_findings_are_kept(
    st: DiagnosticsView,
    fs: Seq<char>,
    snap: FsSnapshotView,
    now: Instant,
    interval: Duration,
    k: int,
)
    requires
        sound(st),
        0 <= k < sampled(st, fs, snap, now, interval).findings.len(),
    ensures
        ({
            let s = sampled(st, fs, snap, now, interval);
            let (id, d) = s.findings[k];
            find(s.seen, id) is Some && d.status == Status::Active ==> updated(
                st,
                fs,
                snap,
                now,
                interval,
            ).findings.contains((id, d))
        }),
{
    law_the_oldest_inactive_findings_are_dropped(st, fs, snap, now, interval);
    let s = sampled(st, fs, snap, now, interval);
    let e = s.findings[k];
    assert(crate::diagnostics::unless_seen(e, s.seen, now) == e.1 || find(s.seen, e.0) is None
        || e.1.status != Status::Active);
}

} // verus!
