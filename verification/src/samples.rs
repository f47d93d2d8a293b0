//! What a sample adds to the application: the stalls that it logs, what each
//! counter rose by, and the points of the charts.

use crate::advisor::hint_of;
use crate::analysis::reports;
use crate::app::{AppView, StallEventView, TimeStatModel, TimeStatView};
use crate::diagnostics::updated;
use crate::double::{product, quotient, signed, sum, whole, zero, Double};
use crate::measures::{lemma_counterpart, stands_at};
use crate::metrics::{
    counterpart, process_rates, ringed, series_of, with_value, DeviceRateView, HistoryView,
};
use crate::numeral::seconds;
use crate::order::{
    arranged, is_ranking, law_arranged_holds_the_same, law_arranged_is_ordered,
    law_arranged_keeps_all, law_text_order, law_text_order_chains, text_before, Rule,
};
use crate::stats::ByActivity;
use crate::strmap::{find, has_key, law_put_then_find};
use crate::sysfs::{DeviceInfoView, FsSnapshotView, Instant, ProcessIoView, TimeStatFullView};
use crate::text::has_prefix;
use crate::tick::{
    blocked_before, blocked_changes, blocked_delta, counter_changes, counter_delta,
    microseconds_text, slow_event, stat_before, stat_changes, stat_delta, totals_of,
    with_new_devices, with_stalls, young_stalls, ByDelta,
};
use crate::trends::total_of;
use crate::window::since;
use vstd::prelude::*;

verus! {

// ----------------------------------------------------------------------- stalls

/// Whether a counter of some device rose from one snapshot to the next.
pub open spec fn has_read(before: Seq<DeviceInfoView>, now: Seq<DeviceInfoView>) -> bool {
    exists|i: int, k: int|
        0 <= i < now.len() && #[trigger] stands_at(before, k, now[i]) && before[k].io_done_read
            < now[i].io_done_read
}

pub open spec fn has_written(before: Seq<DeviceInfoView>, now: Seq<DeviceInfoView>) -> bool {
    exists|i: int, k: int|
        0 <= i < now.len() && #[trigger] stands_at(before, k, now[i]) && before[k].io_done_write
            < now[i].io_done_write
}

/// Whether an event says that an operation of the filesystem was slow now.
pub open spec fn says_slow(
    e: StallEventView,
    now: Instant,
    direction: Seq<char>,
    operation: Seq<char>,
    us: Double,
) -> bool {
    &&& e.time == now
    &&& e.device == "fs"@
    &&& e.direction == direction
    &&& e.detail == operation + " recent mean "@ + microseconds_text(us)
}

pub open spec fn logged(
    events: Seq<StallEventView>,
    now: Instant,
    direction: Seq<char>,
    operation: Seq<char>,
    us: Double,
) -> bool {
    exists|i: int|
        0 <= i < events.len() && says_slow(#[trigger] events[i], now, direction, operation, us)
}

proof fn lemma_young_holds(events: Seq<StallEventView>, now: Instant, e: StallEventView)
    ensures
        young_stalls(events, now).contains(e) <==> events.contains(e) && since(now, e.time)
            < 60_000_000_000,
    decreases events.len(),
{
    if events.len() > 0 {
        let rest = events.drop_last();
        lemma_young_holds(rest, now, e);
        let y = young_stalls(rest, now);
        let all = young_stalls(events, now);
        let n = events.len() - 1;
        assert(events[n] == events.last());
        if rest.contains(e) {
            let k = choose|k: int| 0 <= k < rest.len() && rest[k] == e;
            assert(events[k] == e);
        }
        if y.contains(e) {
            let k = choose|k: int| 0 <= k < y.len() && y[k] == e;
            assert(all[k] == e);
        }
        if events.contains(e) && events.last() != e {
            let k = choose|k: int| 0 <= k < events.len() && events[k] == e;
            assert(rest[k] == e);
        }
        if all.len() > y.len() {
            assert(all[all.len() - 1] == events.last());
            if all.contains(e) && events.last() != e {
                let k = choose|k: int| 0 <= k < all.len() && all[k] == e;
                assert(y[k] == e);
            }
        }
    }
}

/// What stands in a list of stalls after a sample.
proof fn lemma_stalls(
    events: Seq<StallEventView>,
    before: FsSnapshotView,
    snap: FsSnapshotView,
    reads: bool,
    writes: bool,
    now: Instant,
    e: StallEventView,
)
    requires
        forall|i: int| 0 <= i < events.len() ==> (#[trigger] events[i]).time != now,
        e.time == now,
    ensures
        with_stalls(events, before, snap, reads, writes, now).contains(e) <==> {
            ||| reads && whole(200_000).less(snap.recent_data_read_us) && e == slow_event(
                now,
                "read"@,
                "data_read"@,
                snap.recent_data_read_us,
            )
            ||| writes && whole(200_000).less(snap.recent_data_write_us) && e == slow_event(
                now,
                "write"@,
                "data_write"@,
                snap.recent_data_write_us,
            )
            ||| now_slow_btree(before, snap) && e == slow_event(
                now,
                "read"@,
                "btree_read"@,
                snap.recent_btree_read_us,
            )
            ||| now_filling(before, snap) && e == crate::tick::journal_event(now, snap.journal_fill)
        },
{
    let a = crate::tick::preceded_by(
        events,
        reads && whole(200_000).less(snap.recent_data_read_us),
        slow_event(now, "read"@, "data_read"@, snap.recent_data_read_us),
    );
    let b = crate::tick::preceded_by(
        a,
        writes && whole(200_000).less(snap.recent_data_write_us),
        slow_event(now, "write"@, "data_write"@, snap.recent_data_write_us),
    );
    let c = crate::tick::preceded_by(
        b,
        now_slow_btree(before, snap),
        slow_event(now, "read"@, "btree_read"@, snap.recent_btree_read_us),
    );
    let d = crate::tick::preceded_by(
        c,
        now_filling(before, snap),
        crate::tick::journal_event(now, snap.journal_fill),
    );
    let list = with_stalls(events, before, snap, reads, writes, now);
    lemma_filling(before, snap);
    assert(list == crate::metrics::first_of(d, 10));
    let fresh = d.len() - events.len();
    assert(0 <= fresh <= 4);
    assert forall|i: int| fresh <= i < d.len() implies #[trigger] d[i] == events[i - fresh] by {}
    assert(list.contains(e) <==> exists|i: int| 0 <= i < fresh && #[trigger] d[i] == e) by {
        if list.contains(e) {
            let i = choose|i: int| 0 <= i < list.len() && list[i] == e;
            assert(d[i] == e);
            if i >= fresh {
                assert(d[i] == events[i - fresh]);
            }
        }
        if exists|i: int| 0 <= i < fresh && #[trigger] d[i] == e {
            let i = choose|i: int| 0 <= i < fresh && #[trigger] d[i] == e;
            assert(list[i] == e);
        }
    }
    lemma_in_front(events, a, e);
    lemma_in_front(a, b, e);
    lemma_in_front(b, c, e);
    lemma_in_front(c, d, e);
    assert(!events.contains(e));
    assert(d.contains(e) <==> exists|i: int| 0 <= i < fresh && #[trigger] d[i] == e) by {
        if d.contains(e) {
            let i = choose|i: int| 0 <= i < d.len() && d[i] == e;
            if i >= fresh {
                assert(d[i] == events[i - fresh]);
            }
        }
    }
}

proof fn lemma_in_front(s: Seq<StallEventView>, t: Seq<StallEventView>, e: StallEventView)
    requires
        t == s || t == seq![t[0]] + s,
    ensures
        t.contains(e) <==> s.contains(e) || (t != s && t[0] == e),
{
    if t != s {
        assert(t.skip(1) =~= s);
        if s.contains(e) {
            let i = choose|i: int| 0 <= i < s.len() && s[i] == e;
            assert(t.skip(1)[i] == e);
            assert(t[i + 1] == e);
        }
        if t.contains(e) && t[0] != e {
            let i = choose|i: int| 0 <= i < t.len() && t[i] == e;
            assert(t.skip(1)[i - 1] == e);
            assert(s[i - 1] == e);
        }
        if t[0] == e {
            assert(t.contains(e));
        }
    }
}

/// Whether btree nodes were read since the last snapshot, and slowly of late.
pub open spec fn now_slow_btree(before: FsSnapshotView, snap: FsSnapshotView) -> bool {
    before.btree_read_count < snap.btree_read_count && whole(50_000).less(snap.recent_btree_read_us)
}

/// Whether the journal took more than a thousand entries more and is more than
/// seven tenths full.
pub open spec fn now_filling(before: FsSnapshotView, snap: FsSnapshotView) -> bool {
    &&& snap.journal_fill.0 - before.journal_fill.0 > 1000
    &&& snap.journal_fill.1 > 0
    &&& whole(70).less(
        product(
            quotient(whole(snap.journal_fill.0 as nat), whole(snap.journal_fill.1 as nat)),
            whole(100),
        ),
    )
}

proof fn lemma_filling(before: FsSnapshotView, snap: FsSnapshotView)
    ensures
        now_filling(before, snap) == crate::tick::journal_filling(before, snap),
{
    crate::double::law_every_quotient_rounds(70 * crate::double::one(), 1);
}

proof fn lemma_active(before: Seq<DeviceInfoView>, now: Seq<DeviceInfoView>, dt: Double)
    requires
        !dt.at_most(zero()),
    ensures
        ({
            let t = totals_of(crate::metrics::rates_between(before, now, dt).devices);
            &&& t.reads <==> has_read(before, now)
            &&& t.writes <==> has_written(before, now)
        }),
{
    let rows = crate::metrics::rates_between(before, now, dt).devices;
    assert forall|i: int| 0 <= i < now.len() implies {
        let p = counterpart(before, now[i]);
        &&& (#[trigger] rows[i]).read_active <==> p is Some && p->0.io_done_read
            < now[i].io_done_read
        &&& rows[i].write_active <==> p is Some && p->0.io_done_write < now[i].io_done_write
    } by {}
    if has_read(before, now) {
        let (i, k) = choose|i: int, k: int|
            0 <= i < now.len() && #[trigger] stands_at(before, k, now[i])
                && before[k].io_done_read < now[i].io_done_read;
        lemma_counterpart(before, now[i]);
        assert(rows[i].read_active);
    }
    if has_written(before, now) {
        let (i, k) = choose|i: int, k: int|
            0 <= i < now.len() && #[trigger] stands_at(before, k, now[i])
                && before[k].io_done_write < now[i].io_done_write;
        lemma_counterpart(before, now[i]);
        assert(rows[i].write_active);
    }
    if crate::tick::any_reads(rows) {
        let i = choose|i: int| 0 <= i < rows.len() && (#[trigger] rows[i]).read_active;
        lemma_counterpart(before, now[i]);
        let k = choose|k: int| #[trigger] stands_at(before, k, now[i]);
        assert(stands_at(before, k, now[i]));
    }
    if crate::tick::any_writes(rows) {
        let i = choose|i: int| 0 <= i < rows.len() && (#[trigger] rows[i]).write_active;
        lemma_counterpart(before, now[i]);
        let k = choose|k: int| #[trigger] stands_at(before, k, now[i]);
        assert(stands_at(before, k, now[i]));
    }
}

proof fn lemma_kinds_differ(a: Double, b: Double, c: Double)
    ensures
        "data_read"@ + " recent mean "@ + microseconds_text(a) != "btree_read"@ + " recent mean "@
            + microseconds_text(c),
        "read"@ != "write"@,
        "fs"@ != "journal"@,
{
    reveal_strlit("data_read");
    reveal_strlit("btree_read");
    reveal_strlit("read");
    reveal_strlit("write");
    reveal_strlit("fs");
    reveal_strlit("journal");
    let x = "data_read"@ + " recent mean "@ + microseconds_text(a);
    let y = "btree_read"@ + " recent mean "@ + microseconds_text(c);
    assert(x[0] == 'd' && y[0] == 'b');
    assert("read"@.len() == 4 && "write"@.len() == 5);
    assert("fs"@.len() == 2 && "journal"@.len() == 7);
}

/// Slow operations are logged as they are seen, each by its own recent mean: reads
/// and writes of data above 200 ms where some device read or wrote, reads of btree
/// nodes above 50 ms where some were read. One does not depend on the other.
pub proof fn law_slow_operations_are_logged(app: AppView, snap: FsSnapshotView, now: Instant)
    requires
        app.previous is Some,
        !seconds(since(now, app.last_tick)).at_most(zero()),
        forall|i: int| 0 <= i < app.stall_events.len() ==> (#[trigger] app.stall_events[i]).time
            != now,
    ensures
        ({
            let next = app.sampled(snap, now).stall_events;
            let before = app.current.devices;
            &&& logged(next, now, "read"@, "data_read"@, snap.recent_data_read_us) <==> has_read(
                before,
                snap.devices,
            ) && whole(200_000).less(snap.recent_data_read_us)
            &&& logged(next, now, "write"@, "data_write"@, snap.recent_data_write_us)
                <==> has_written(before, snap.devices) && whole(200_000).less(
                snap.recent_data_write_us,
            )
            &&& logged(next, now, "read"@, "btree_read"@, snap.recent_btree_read_us)
                <==> app.current.btree_read_count < snap.btree_read_count && whole(50_000).less(
                snap.recent_btree_read_us,
            )
        }),
{
    let dt = seconds(since(now, app.last_tick));
    let before = app.current.devices;
    lemma_active(before, snap.devices, dt);
    let t = totals_of(app.new_rates(snap, now).devices);
    let events = with_stalls(app.stall_events, app.current, snap, t.reads, t.writes, now);
    let next = app.sampled(snap, now).stall_events;
    assert(next == young_stalls(events, now));
    lemma_kinds_differ(
        snap.recent_data_read_us,
        snap.recent_data_write_us,
        snap.recent_btree_read_us,
    );
    let r = slow_event(now, "read"@, "data_read"@, snap.recent_data_read_us);
    let w = slow_event(now, "write"@, "data_write"@, snap.recent_data_write_us);
    let b = slow_event(now, "read"@, "btree_read"@, snap.recent_btree_read_us);
    lemma_stalls(app.stall_events, app.current, snap, t.reads, t.writes, now, r);
    lemma_stalls(app.stall_events, app.current, snap, t.reads, t.writes, now, w);
    lemma_stalls(app.stall_events, app.current, snap, t.reads, t.writes, now, b);
    lemma_young_holds(events, now, r);
    lemma_young_holds(events, now, w);
    lemma_young_holds(events, now, b);
    lemma_logged(next, now, "read"@, "data_read"@, snap.recent_data_read_us);
    lemma_logged(next, now, "write"@, "data_write"@, snap.recent_data_write_us);
    lemma_logged(next, now, "read"@, "btree_read"@, snap.recent_btree_read_us);
}

proof fn lemma_logged(
    events: Seq<StallEventView>,
    now: Instant,
    direction: Seq<char>,
    operation: Seq<char>,
    us: Double,
)
    ensures
        logged(events, now, direction, operation, us) <==> events.contains(
            slow_event(now, direction, operation, us),
        ),
{
    let e = slow_event(now, direction, operation, us);
    if logged(events, now, direction, operation, us) {
        let i = choose|i: int|
            0 <= i < events.len() && says_slow(#[trigger] events[i], now, direction, operation, us);
        assert(events[i] == e);
    }
    if events.contains(e) {
        let i = choose|i: int| 0 <= i < events.len() && events[i] == e;
        assert(says_slow(events[i], now, direction, operation, us));
    }
}

/// A journal that fills quickly is logged: more than a thousand entries more than
/// before, and more than seven tenths of its room.
pub proof fn law_a_filling_journal_is_logged(app: AppView, snap: FsSnapshotView, now: Instant)
    requires
        app.previous is Some,
        forall|i: int| 0 <= i < app.stall_events.len() ==> (#[trigger] app.stall_events[i]).time
            != now,
    ensures
        now_filling(app.current, snap) <==> exists|i: int|
            0 <= i < app.sampled(snap, now).stall_events.len() && ({
                let e = #[trigger] app.sampled(snap, now).stall_events[i];
                e.time == now && e.device == "journal"@
            }),
{
    let t = totals_of(app.new_rates(snap, now).devices);
    let events = with_stalls(app.stall_events, app.current, snap, t.reads, t.writes, now);
    let next = app.sampled(snap, now).stall_events;
    assert(next == young_stalls(events, now));
    let j = crate::tick::journal_event(now, snap.journal_fill);
    lemma_stalls(app.stall_events, app.current, snap, t.reads, t.writes, now, j);
    lemma_young_holds(events, now, j);
    lemma_kinds_differ(zero(), zero(), zero());
    if now_filling(app.current, snap) {
        let i = choose|i: int| 0 <= i < next.len() && next[i] == j;
        assert(next[i].device == "journal"@);
    }
    if exists|i: int|
        0 <= i < next.len() && (#[trigger] next[i]).time == now && next[i].device == "journal"@ {
        let i = choose|i: int|
            0 <= i < next.len() && (#[trigger] next[i]).time == now && next[i].device
                == "journal"@;
        let e = next[i];
        assert(next.contains(e));
        lemma_young_holds(events, now, e);
        lemma_stalls(app.stall_events, app.current, snap, t.reads, t.writes, now, e);
    }
}

/// What was logged less than a minute ago stays while there is room for ten, and
/// nothing else is left of it.
pub proof fn law_logged_stalls_stay_for_a_minute(
    app: AppView,
    snap: FsSnapshotView,
    now: Instant,
    e: StallEventView,
)
    requires
        e.time != now,
    ensures
        app.sampled(snap, now).stall_events.contains(e) ==> app.stall_events.contains(e) && since(
            now,
            e.time,
        ) < 60_000_000_000,
        app.stall_events.len() <= 6 && app.stall_events.contains(e) && since(now, e.time)
            < 60_000_000_000 ==> app.sampled(snap, now).stall_events.contains(e),
        app.previous is Some ==> app.sampled(snap, now).stall_events.len() <= 10,
{
    let t = totals_of(app.new_rates(snap, now).devices);
    let listed = if app.previous is Some {
        with_stalls(app.stall_events, app.current, snap, t.reads, t.writes, now)
    } else {
        app.stall_events
    };
    let next = app.sampled(snap, now).stall_events;
    assert(next == young_stalls(listed, now));
    lemma_young_holds(listed, now, e);
    lemma_young_len(listed, now);
    if app.previous is Some {
        lemma_others_stay(app.stall_events, app.current, snap, t.reads, t.writes, now, e);
    }
}

proof fn lemma_young_len(events: Seq<StallEventView>, now: Instant)
    ensures
        young_stalls(events, now).len() <= events.len(),
    decreases events.len(),
{
    if events.len() > 0 {
        lemma_young_len(events.drop_last(), now);
    }
}

proof fn lemma_others_stay(
    events: Seq<StallEventView>,
    before: FsSnapshotView,
    snap: FsSnapshotView,
    reads: bool,
    writes: bool,
    now: Instant,
    e: StallEventView,
)
    requires
        e.time != now,
    ensures
        with_stalls(events, before, snap, reads, writes, now).len() <= 10,
        with_stalls(events, before, snap, reads, writes, now).contains(e) ==> events.contains(e),
        events.len() <= 6 && events.contains(e) ==> with_stalls(
            events,
            before,
            snap,
            reads,
            writes,
            now,
        ).contains(e),
{
    let a = crate::tick::preceded_by(
        events,
        reads && whole(200_000).less(snap.recent_data_read_us),
        slow_event(now, "read"@, "data_read"@, snap.recent_data_read_us),
    );
    let b = crate::tick::preceded_by(
        a,
        writes && whole(200_000).less(snap.recent_data_write_us),
        slow_event(now, "write"@, "data_write"@, snap.recent_data_write_us),
    );
    let c = crate::tick::preceded_by(
        b,
        now_slow_btree(before, snap),
        slow_event(now, "read"@, "btree_read"@, snap.recent_btree_read_us),
    );
    let d = crate::tick::preceded_by(
        c,
        now_filling(before, snap),
        crate::tick::journal_event(now, snap.journal_fill),
    );
    let list = with_stalls(events, before, snap, reads, writes, now);
    lemma_filling(before, snap);
    assert(list == crate::metrics::first_of(d, 10));
    lemma_in_front(events, a, e);
    lemma_in_front(a, b, e);
    lemma_in_front(b, c, e);
    lemma_in_front(c, d, e);
    if list.contains(e) {
        let i = choose|i: int| 0 <= i < list.len() && list[i] == e;
        assert(d[i] == e);
    }
}

// ----------------------------------------------------------------------- deltas

/// Whether the first entry of a name stands at a place.
pub open spec fn first_blocked(
    stats: Seq<(Seq<char>, u64, Double)>,
    k: int,
    name: Seq<char>,
) -> bool {
    &&& 0 <= k < stats.len() && stats[k].0 == name
    &&& forall|j: int| 0 <= j < k ==> (#[trigger] stats[j]).0 != name
}

pub open spec fn first_stat(stats: Seq<TimeStatFullView>, k: int, name: Seq<char>) -> bool {
    &&& 0 <= k < stats.len() && stats[k].name == name
    &&& forall|j: int| 0 <= j < k ==> (#[trigger] stats[j]).name != name
}

proof fn lemma_first_blocked(
    stats: Seq<(Seq<char>, u64, Double)>,
    k: int,
    name: Seq<char>,
    other: u64,
)
    ensures
        first_blocked(stats, k, name) ==> blocked_before(stats, name, other) == stats[k].1,
        (forall|j: int| 0 <= j < stats.len() ==> (#[trigger] stats[j]).0 != name)
            ==> blocked_before(stats, name, other) == other,
    decreases stats.len(),
{
    if stats.len() > 0 {
        let t = stats.skip(1);
        lemma_first_blocked(t, k - 1, name, other);
        if first_blocked(stats, k, name) && k > 0 {
            assert(stats[0].0 != name);
            assert(first_blocked(t, k - 1, name)) by {
                assert(t[k - 1] == stats[k]);
                assert forall|j: int| 0 <= j < k - 1 implies (#[trigger] t[j]).0 != name by {
                    assert(t[j] == stats[j + 1]);
                }
            }
        }
        if forall|j: int| 0 <= j < stats.len() ==> (#[trigger] stats[j]).0 != name {
            assert(stats[0].0 != name);
            assert forall|j: int| 0 <= j < t.len() implies (#[trigger] t[j]).0 != name by {
                assert(t[j] == stats[j + 1]);
            }
        }
    }
}

proof fn lemma_first_stat(stats: Seq<TimeStatFullView>, k: int, name: Seq<char>, other: u64)
    ensures
        first_stat(stats, k, name) ==> stat_before(stats, name, other) == stats[k].count,
        (forall|j: int| 0 <= j < stats.len() ==> (#[trigger] stats[j]).name != name)
            ==> stat_before(stats, name, other) == other,
    decreases stats.len(),
{
    if stats.len() > 0 {
        let t = stats.skip(1);
        lemma_first_stat(t, k - 1, name, other);
        if first_stat(stats, k, name) && k > 0 {
            assert(stats[0].name != name);
            assert(first_stat(t, k - 1, name)) by {
                assert(t[k - 1] == stats[k]);
                assert forall|j: int| 0 <= j < k - 1 implies (#[trigger] t[j]).name != name by {
                    assert(t[j] == stats[j + 1]);
                }
            }
        }
        if forall|j: int| 0 <= j < stats.len() ==> (#[trigger] stats[j]).name != name {
            assert(stats[0].name != name);
            assert forall|j: int| 0 <= j < t.len() implies (#[trigger] t[j]).name != name by {
                assert(t[j] == stats[j + 1]);
            }
        }
    }
}

proof fn lemma_activity_ranks()
    ensures
        is_ranking::<(String, u64, Double), ByActivity>(),
{
    assert forall|a: (Seq<char>, u64, Double), b: (Seq<char>, u64, Double)|
        #[trigger] <ByActivity as Rule<(String, u64, Double)>>::before(
            a,
            b,
        ) implies !<ByActivity as Rule<(String, u64, Double)>>::before(b, a) by {
        law_text_order(a.0, b.0);
    }
    assert forall|
        a: (Seq<char>, u64, Double),
        b: (Seq<char>, u64, Double),
        c: (Seq<char>, u64, Double),
    |
        !#[trigger] <ByActivity as Rule<(String, u64, Double)>>::before(b, a)
            && !#[trigger] <ByActivity as Rule<(String, u64, Double)>>::before(
            c,
            b,
        ) implies !<ByActivity as Rule<(String, u64, Double)>>::before(c, a) by {
        lemma_not_after(a.0, b.0, c.0);
    }
}

/// Texts of which none precedes the one before it are in order.
pub proof fn lemma_not_after(a: Seq<char>, b: Seq<char>, c: Seq<char>)
    ensures
        !text_before(b, a) && !text_before(c, b) ==> !text_before(c, a),
{
    law_text_order(a, b);
    law_text_order(b, c);
    law_text_order(a, c);
    if text_before(c, a) && text_before(a, b) {
        law_text_order_chains(c, a, b);
    }
}

proof fn lemma_delta_ranks()
    ensures
        is_ranking::<(String, u64, u64), ByDelta>(),
        is_ranking::<TimeStatView, ByDelta>(),
{
    assert forall|a: (Seq<char>, u64, u64), b: (Seq<char>, u64, u64)| #[trigger]
        <ByDelta as Rule<(String, u64, u64)>>::before(a, b) implies !<ByDelta as Rule<
        (String, u64, u64),
    >>::before(b, a) by {
        law_text_order(a.0, b.0);
    }
    assert forall|a: (Seq<char>, u64, u64), b: (Seq<char>, u64, u64), c: (Seq<char>, u64, u64)|
        !#[trigger] <ByDelta as Rule<(String, u64, u64)>>::before(b, a)
            && !#[trigger] <ByDelta as Rule<(String, u64, u64)>>::before(
            c,
            b,
        ) implies !<ByDelta as Rule<(String, u64, u64)>>::before(c, a) by {
        lemma_not_after(a.0, b.0, c.0);
    }
    assert forall|a: TimeStatModel, b: TimeStatModel| #[trigger]
        <ByDelta as Rule<TimeStatView>>::before(a, b) implies !<ByDelta as Rule<
        TimeStatView,
    >>::before(b, a) by {
        law_text_order(a.name, b.name);
    }
    assert forall|a: TimeStatModel, b: TimeStatModel, c: TimeStatModel|
        !#[trigger] <ByDelta as Rule<TimeStatView>>::before(b, a)
            && !#[trigger] <ByDelta as Rule<TimeStatView>>::before(
            c,
            b,
        ) implies !<ByDelta as Rule<TimeStatView>>::before(c, a) by {
        lemma_not_after(a.name, b.name, c.name);
    }
}

/// What blocks now: every blocked operation is listed with what its count rose by
/// since the last snapshot and its recent mean, the one that blocked most first. One
/// that was not there before blocked nothing yet.
pub proof fn law_blocked_operations_show_their_rise(
    app: AppView,
    snap: FsSnapshotView,
    now: Instant,
    i: int,
    k: int,
)
    requires
        0 <= i < snap.blocked_stats.len(),
    ensures
        ({
            let (name, n, mean) = snap.blocked_stats[i];
            let before = app.current.blocked_stats;
            let list = app.sampled(snap, now).blocked_deltas;
            &&& list.len() == snap.blocked_stats.len()
            &&& first_blocked(before, k, name) && before[k].1 <= n ==> list.contains(
                (name, (n - before[k].1) as u64, mean),
            )
            &&& first_blocked(before, k, name) && n < before[k].1 ==> list.contains(
                (name, 0u64, mean),
            )
            &&& (forall|j: int| 0 <= j < before.len() ==> (#[trigger] before[j]).0 != name)
                ==> list.contains((name, 0u64, mean))
            &&& forall|x: int, y: int|
                0 <= x < y < list.len() ==> (#[trigger] list[y]).1 <= (#[trigger] list[x]).1
        }),
{
    let before = app.current.blocked_stats;
    let (name, n, mean) = snap.blocked_stats[i];
    let c = blocked_changes(before, snap.blocked_stats);
    let list = arranged::<(String, u64, Double), ByActivity>(c);
    lemma_first_blocked(before, k, name, n);
    assert(c[i] == blocked_delta(before, snap.blocked_stats[i]));
    assert(c.contains(c[i]));
    law_arranged_holds_the_same::<(String, u64, Double), ByActivity>(c, c[i]);
    law_arranged_keeps_all::<(String, u64, Double), ByActivity>(c);
    lemma_activity_ranks();
    law_arranged_is_ordered::<(String, u64, Double), ByActivity>(c);
    assert forall|x: int, y: int| 0 <= x < y < list.len() implies (#[trigger] list[y]).1 <= (
    #[trigger] list[x]).1 by {
        assert(!<ByActivity as Rule<(String, u64, Double)>>::before(list[y], list[x]));
    }
}

/// Every timed operation is listed with what its count rose by, its count in all
/// and its own times, the one that rose most first.
pub proof fn law_operations_show_their_rise(
    app: AppView,
    snap: FsSnapshotView,
    now: Instant,
    i: int,
    k: int,
)
    requires
        0 <= i < snap.all_time_stats.len(),
    ensures
        ({
            let t = snap.all_time_stats[i];
            let before = app.current.all_time_stats;
            let list = app.sampled(snap, now).time_stats_view;
            let row = |delta: u64|
                TimeStatModel {
                    name: t.name,
                    count_delta: delta,
                    count_total: t.count,
                    mean_ns: t.dur_mean_ns,
                    recent_ns: t.dur_recent_ns,
                    max_ns: t.dur_max_ns,
                    is_blocked: has_prefix(t.name, "blocked_"@),
                };
            &&& list.len() == snap.all_time_stats.len()
            &&& first_stat(before, k, t.name) && before[k].count <= t.count ==> list.contains(
                row((t.count - before[k].count) as u64),
            )
            &&& first_stat(before, k, t.name) && t.count < before[k].count ==> list.contains(row(0))
            &&& (forall|j: int| 0 <= j < before.len() ==> (#[trigger] before[j]).name != t.name)
                ==> list.contains(row(0))
            &&& forall|x: int, y: int|
                0 <= x < y < list.len() ==> (#[trigger] list[y]).count_delta <= (
                #[trigger] list[x]).count_delta
        }),
{
    let t = snap.all_time_stats[i];
    let before = app.current.all_time_stats;
    let c = stat_changes(before, snap.all_time_stats);
    let list = arranged::<TimeStatView, ByDelta>(c);
    lemma_first_stat(before, k, t.name, t.count);
    assert(c[i] == stat_delta(before, t));
    assert(c.contains(c[i]));
    law_arranged_holds_the_same::<TimeStatView, ByDelta>(c, c[i]);
    law_arranged_keeps_all::<TimeStatView, ByDelta>(c);
    lemma_delta_ranks();
    law_arranged_is_ordered::<TimeStatView, ByDelta>(c);
    assert forall|x: int, y: int| 0 <= x < y < list.len() implies (#[trigger] list[y]).count_delta
        <= (#[trigger] list[x]).count_delta by {
        assert(!<ByDelta as Rule<TimeStatView>>::before(list[y], list[x]));
    }
}

/// Every counter is listed with what it rose by and what it is, the one that rose
/// most first; one that was not there before rose by nothing.
pub proof fn law_counters_show_their_rise(
    app: AppView,
    snap: FsSnapshotView,
    now: Instant,
    i: int,
)
    requires
        0 <= i < snap.counters.len(),
    ensures
        ({
            let (name, n) = snap.counters[i];
            let list = app.sampled(snap, now).counter_deltas;
            let found = find(app.current.counters, name);
            &&& list.len() == snap.counters.len()
            &&& found is Some && found->0 <= n ==> list.contains((name, (n - found->0) as u64, n))
            &&& found is None || n < found->0 ==> list.contains((name, 0u64, n))
            &&& forall|x: int, y: int|
                0 <= x < y < list.len() ==> (#[trigger] list[y]).1 <= (#[trigger] list[x]).1
        }),
{
    let before = app.current.counters;
    let c = counter_changes(before, snap.counters);
    let list = arranged::<(String, u64, u64), ByDelta>(c);
    assert(c[i] == counter_delta(before, snap.counters[i]));
    assert(c.contains(c[i]));
    law_arranged_holds_the_same::<(String, u64, u64), ByDelta>(c, c[i]);
    law_arranged_keeps_all::<(String, u64, u64), ByDelta>(c);
    lemma_delta_ranks();
    law_arranged_is_ordered::<(String, u64, u64), ByDelta>(c);
    assert forall|x: int, y: int| 0 <= x < y < list.len() implies (#[trigger] list[y]).1 <= (
    #[trigger] list[x]).1 by {
        assert(!<ByDelta as Rule<(String, u64, u64)>>::before(list[y], list[x]));
    }
}

// ----------------------------------------------------------------------- charts

/// A number of each device, added up in their order.
pub open spec fn added_up(
    devices: Seq<DeviceRateView>,
    number: spec_fn(DeviceRateView) -> Double,
) -> Double
    decreases devices.len(),
{
    if devices.len() == 0 {
        signed(true, 0)
    } else {
        sum(added_up(devices.drop_last(), number), number(devices.last()))
    }
}

proof fn lemma_added_up(devices: Seq<DeviceRateView>)
    ensures
        ({
            let t = totals_of(devices);
            &&& t.read_bytes == added_up(devices, |d: DeviceRateView| d.read_bytes_sec)
            &&& t.write_bytes == added_up(devices, |d: DeviceRateView| d.write_bytes_sec)
            &&& t.read_iops == added_up(devices, |d: DeviceRateView| d.read_iops)
            &&& t.write_iops == added_up(devices, |d: DeviceRateView| d.write_iops)
        }),
    decreases devices.len(),
{
    if devices.len() > 0 {
        let rest = devices.drop_last();
        lemma_added_up(rest);
        assert(crate::tick::read_rates(devices).drop_last() =~= crate::tick::read_rates(rest));
        assert(crate::tick::write_rates(devices).drop_last() =~= crate::tick::write_rates(rest));
        assert(crate::tick::read_operations(devices).drop_last() =~= crate::tick::read_operations(
            rest,
        ));
        assert(crate::tick::write_operations(devices).drop_last()
            =~= crate::tick::write_operations(rest));
        assert(total_of(crate::tick::read_rates(devices)) == sum(
            total_of(crate::tick::read_rates(rest)),
            devices.last().read_bytes_sec,
        ));
    }
}

proof fn lemma_series(h: HistoryView, key: Seq<char>, value: Double, other: Seq<char>)
    ensures
        series_of(with_value(h, key, value), key) == ringed(series_of(h, key), h.capacity, value),
        ringed(series_of(h, key), h.capacity, value).last() == value,
        other != key ==> series_of(with_value(h, key, value), other) == series_of(h, other),
        with_value(h, key, value).capacity == h.capacity,
{
    law_put_then_find(h.series, key, ringed(series_of(h, key), h.capacity, value), other);
}

/// Whether a series got one value more, and lost no more than its oldest for it.
pub open spec fn grew_by(a: Seq<Double>, b: Seq<Double>, value: Double) -> bool {
    &&& b.len() > 0 && b.last() == value
    &&& b == a.push(value) || (a.len() > 0 && b == a.skip(1).push(value))
}

/// Each chart gets its own point at its end, and keeps the points before it: the
/// bytes and requests of all devices together, each direction apart, and the recent
/// means of data where some was moved.
pub proof fn law_charts_get_their_own_points(app: AppView, snap: FsSnapshotView, now: Instant)
    requires
        !seconds(since(now, app.last_tick)).at_most(zero()),
        app.history.capacity > 0,
    ensures
        ({
            let next = app.sampled(snap, now);
            let rows = next.rates->0.devices;
            let a = app.history;
            let h = next.history;
            let reads = has_read(app.current.devices, snap.devices);
            let writes = has_written(app.current.devices, snap.devices);
            &&& grew_by(
                series_of(a, "io_read_bytes_sec"@),
                series_of(h, "io_read_bytes_sec"@),
                added_up(rows, |d: DeviceRateView| d.read_bytes_sec),
            )
            &&& grew_by(
                series_of(a, "io_write_bytes_sec"@),
                series_of(h, "io_write_bytes_sec"@),
                added_up(rows, |d: DeviceRateView| d.write_bytes_sec),
            )
            &&& grew_by(
                series_of(a, "io_read_iops"@),
                series_of(h, "io_read_iops"@),
                added_up(rows, |d: DeviceRateView| d.read_iops),
            )
            &&& grew_by(
                series_of(a, "io_write_iops"@),
                series_of(h, "io_write_iops"@),
                added_up(rows, |d: DeviceRateView| d.write_iops),
            )
            &&& grew_by(
                series_of(a, "avg_read_latency_us"@),
                series_of(h, "avg_read_latency_us"@),
                if reads {
                    snap.recent_data_read_us
                } else {
                    zero()
                },
            )
            &&& grew_by(
                series_of(a, "avg_write_latency_us"@),
                series_of(h, "avg_write_latency_us"@),
                if writes {
                    snap.recent_data_write_us
                } else {
                    zero()
                },
            )
        }),
{
    let dt = seconds(since(now, app.last_tick));
    let rows = app.new_rates(snap, now).devices;
    let t = totals_of(rows);
    lemma_added_up(rows);
    lemma_active(app.current.devices, snap.devices, dt);
    reveal_strlit("io_read_bytes_sec");
    reveal_strlit("io_write_bytes_sec");
    reveal_strlit("io_read_iops");
    reveal_strlit("io_write_iops");
    reveal_strlit("avg_read_latency_us");
    reveal_strlit("avg_write_latency_us");
    assert("io_read_bytes_sec"@.len() == 17 && "io_write_bytes_sec"@.len() == 18);
    assert("io_read_iops"@.len() == 12 && "io_write_iops"@.len() == 13);
    assert("avg_read_latency_us"@.len() == 19 && "avg_write_latency_us"@.len() == 20);
    assert forall|h: HistoryView, key: Seq<char>, value: Double| true implies {
        let g = #[trigger] with_value(h, key, value);
        &&& series_of(g, key) == ringed(series_of(h, key), h.capacity, value)
        &&& g.capacity == h.capacity
    } by {
        lemma_series(h, key, value, key);
    }
    assert forall|h: HistoryView, key: Seq<char>, value: Double, other: Seq<char>|
        other != key implies #[trigger] series_of(with_value(h, key, value), other) == series_of(
        h,
        other,
    ) by {
        lemma_series(h, key, value, other);
    }
    assert forall|s: Seq<Double>, value: Double| true implies #[trigger] grew_by(
        s,
        ringed(s, app.history.capacity, value),
        value,
    ) by {}
}

/// The share of the time that processors waited for I/O: of all their time since
/// the last snapshot, in percent, and none where no time passed.
pub proof fn law_waiting_is_a_share_of_the_interval(
    app: AppView,
    snap: FsSnapshotView,
    now: Instant,
)
    ensures
        ({
            let share = app.sampled(snap, now).iowait_pct;
            let was = app.current;
            &&& was.cpu_total < snap.cpu_total && was.cpu_iowait <= snap.cpu_iowait ==> share
                == product(
                quotient(
                    whole((snap.cpu_iowait - was.cpu_iowait) as nat),
                    whole((snap.cpu_total - was.cpu_total) as nat),
                ),
                whole(100),
            )
            &&& snap.cpu_total <= was.cpu_total ==> share == zero()
        }),
{
}

/// A sample takes the place of the current one, which becomes the one before; the
/// rates are those between the two over the time since the last sample.
pub proof fn law_a_sample_becomes_the_current_one(
    app: AppView,
    snap: FsSnapshotView,
    now: Instant,
)
    ensures
        ({
            let next = app.sampled(snap, now);
            &&& next.current == snap
            &&& next.previous == Some(app.current)
            &&& next.last_tick == now
            &&& app.last_tick <= now ==> next.rates == Some(
                crate::metrics::rates_between(
                    app.current.devices,
                    snap.devices,
                    seconds((now - app.last_tick) as u64),
                ),
            )
            &&& next.fs == app.fs && next.fs_index == app.fs_index && next.all_fs == app.all_fs
            &&& next.dismissed_temp == app.dismissed_temp
            &&& next.dismissed_permanent == app.dismissed_permanent
        }),
{
}

/// The errors of a device that appears are its own at that sight: the first of its
/// name in the snapshot gives them.
pub proof fn law_new_devices_bring_their_errors(
    app: AppView,
    snap: FsSnapshotView,
    now: Instant,
    i: int,
)
    requires
        0 <= i < snap.devices.len(),
        !has_key(app.initial_errors, snap.devices[i].name),
        forall|j: int| 0 <= j < i ==> (#[trigger] snap.devices[j]).name != snap.devices[i].name,
    ensures
        find(app.sampled(snap, now).initial_errors, snap.devices[i].name) == Some(
            snap.devices[i].io_errors,
        ),
{
    lemma_new_errors(app.initial_errors, snap.devices, i);
}

proof fn lemma_new_errors(initial: Seq<(Seq<char>, u64)>, devices: Seq<DeviceInfoView>, i: int)
    requires
        0 <= i < devices.len(),
        !has_key(initial, devices[i].name),
        forall|j: int| 0 <= j < i ==> (#[trigger] devices[j]).name != devices[i].name,
    ensures
        find(with_new_devices(initial, devices), devices[i].name) == Some(devices[i].io_errors),
    decreases devices.len(),
{
    let rest = devices.drop_last();
    let n = devices.len() - 1;
    let known = with_new_devices(initial, rest);
    let name = devices[i].name;
    if i < n {
        assert(rest[i] == devices[i]);
        assert forall|j: int| 0 <= j < i implies (#[trigger] rest[j]).name != name by {
            assert(rest[j] == devices[j]);
        }
        lemma_new_errors(initial, rest, i);
        law_put_then_find(known, devices.last().name, devices.last().io_errors, name);
    } else {
        assert forall|j: int| 0 <= j < rest.len() implies (#[trigger] rest[j]).name != name by {
            assert(rest[j] == devices[j]);
        }
        lemma_still_unknown(initial, rest, name);
        law_put_then_find(known, name, devices[i].io_errors, name);
    }
}

proof fn lemma_still_unknown(
    initial: Seq<(Seq<char>, u64)>,
    devices: Seq<DeviceInfoView>,
    name: Seq<char>,
)
    requires
        !has_key(initial, name),
        forall|j: int| 0 <= j < devices.len() ==> (#[trigger] devices[j]).name != name,
    ensures
        !has_key(with_new_devices(initial, devices), name),
    decreases devices.len(),
{
    if devices.len() > 0 {
        let rest = devices.drop_last();
        assert(devices[devices.len() - 1].name != name);
        assert forall|j: int| 0 <= j < rest.len() implies (#[trigger] rest[j]).name != name by {
            assert(rest[j] == devices[j]);
        }
        lemma_still_unknown(initial, rest, name);
        law_put_then_find(
            with_new_devices(initial, rest),
            devices.last().name,
            devices.last().io_errors,
            name,
        );
    }
}

/// A chart keeps its newest points: one more goes to the end, and a full chart loses
/// the oldest for it.
pub proof fn law_a_full_chart_loses_its_oldest(h: HistoryView, key: Seq<char>, value: Double)
    requires
        h.capacity > 0,
        series_of(h, key).len() <= h.capacity,
    ensures
        ({
            let before = series_of(h, key);
            let after = series_of(with_value(h, key, value), key);
            &&& after.last() == value
            &&& before.len() < h.capacity ==> after.len() == before.len() + 1
            &&& before.len() == h.capacity ==> after.len() == before.len()
            &&& forall|i: int|
                0 <= i < after.len() - 1 ==> #[trigger] after[i] == before[i + before.len() + 1
                    - after.len()]
        }),
        HistoryView::starting().capacity == 120,
{
    law_put_then_find(h.series, key, ringed(series_of(h, key), h.capacity, value), key);
}

// ------------------------------------------------------------------------ ticks

/// A tick takes the snapshot in, finds what it supports in it, under the filesystem
/// shown and with the interval expected, and shows the hint that is then due.
pub proof fn law_a_tick_diagnoses_its_snapshot(
    app: AppView,
    snap: FsSnapshotView,
    now: Instant,
    processes: Option<Seq<ProcessIoView>>,
)
    ensures
        ({
            let next = app.ticked(snap, now, processes);
            let found = app.sampled(snap, now).diagnosed(now);
            &&& next.current == snap && next.previous == Some(app.current)
            &&& next.diagnostics == updated(
                app.diagnostics,
                app.fs.uuid,
                snap,
                now,
                app.expected_interval,
            )
            &&& next.target_reports == reports(snap)
            &&& next.stall_events == app.sampled(snap, now).stall_events
            &&& next.history == app.sampled(snap, now).history
            &&& hint_of(found, now) is Some ==> next.proposal == hint_of(found, now)
        }),
{
}

/// Processes are measured where they are shown, over the time of the sample and
/// against those seen last, twenty at most; else what is known of them stays.
pub proof fn law_shown_processes_are_measured(
    app: AppView,
    snap: FsSnapshotView,
    now: Instant,
    seen: Seq<ProcessIoView>,
)
    ensures
        ({
            let next = app.ticked(snap, now, Some(seen));
            let dt = seconds(since(now, app.last_tick));
            &&& app.show_processes ==> next.process_rates == process_rates(
                app.prev_proc_io,
                seen,
                dt,
                20,
                app.process_rates,
            ) && next.prev_proc_io == seen
            &&& !app.show_processes ==> next.process_rates == app.process_rates && next.prev_proc_io
                == app.prev_proc_io
        }),
        app.ticked(snap, now, None).process_rates == app.process_rates,
{
}

} // verus!
