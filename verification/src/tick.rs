//! What a new sample changes: rates, histories, stalls, deltas and the hint.

use crate::advisor::{evaluate, hint_of, Proposal, ProposalView};
use crate::analysis::{analyze, reports};
use crate::app::{App, AppView, HintStatus, StallEvent, StallEventView, TimeStatModel, TimeStatView};
use crate::diagnostics::{updated, Status};
use crate::double::{quotient, signed, sum, whole, zero, Double};
use crate::formats::{percent, share_pct};
use crate::metrics::{
    compute_process_rates, compute_rates, first_of, process_rates, rates_between, rise, with_value,
    DeviceRate, DeviceRateView, History, HistoryView, Rates, RatesView,
};
use crate::numeral::{fixed, fixed_text, seconds, to_seconds};
use crate::order::{arranged, precedes_text, sort, text_before, Rule};
use crate::stats::ByActivity;
use crate::strmap::{find, has_key, law_put_then_find, put, StrMap};
use crate::sysfs::{
    DeviceInfo, DeviceInfoView, FsSnapshot, FsSnapshotView, Instant, ProcessIo, ProcessIoView,
    TimeStatFull, TimeStatFullView,
};
use crate::text::{
    cat2, cat3, copy, has_prefix, lemma_views_push, opt_views, same, starts_with, views, Duplicate,
};
use crate::trends::total_of;
use crate::window::{since, time_since};
use vstd::prelude::*;

verus! {

/// How many stalls are kept, and for how long.
pub const MAX_STALLS: usize = 10;

pub const STALL_KEPT: u64 = 60_000_000_000;

/// How long a hint stays at least.
pub const MIN_HINT_DISPLAY: u64 = 15_000_000_000;

/// How long a message stays once it was shown.
pub const STATUS_DISPLAY: u64 = 4_000_000_000;

/// How many processes are listed.
pub const TOP_PROCESSES: usize = 20;

// ----------------------------------------------------------------- formatting

/// A time in microseconds, in the unit that suits it.
pub open spec fn microseconds_text(us: Double) -> Seq<char> {
    if whole(1_000_000).at_most(us) {
        fixed(quotient(us, whole(1_000_000)), 1) + "s"@
    } else if whole(1_000).at_most(us) {
        fixed(quotient(us, whole(1_000)), 1) + "ms"@
    } else {
        fixed(us, 0) + "µs"@
    }
}

pub fn format_duration_us(us: Double) -> (r: String)
    ensures
        r@ == microseconds_text(us),
{
    let million = Double::from_u64(1_000_000);
    let thousand = Double::from_u64(1_000);
    if million.is_at_most(us) {
        cat2(fixed_text(us.over(million), 1).as_str(), "s")
    } else if thousand.is_at_most(us) {
        cat2(fixed_text(us.over(thousand), 1).as_str(), "ms")
    } else {
        cat2(fixed_text(us, 0).as_str(), "µs")
    }
}

// ------------------------------------------------------------ errors at first

/// The errors at first sight, with those of devices that appeared since.
pub open spec fn with_new_devices(
    initial: Seq<(Seq<char>, u64)>,
    devices: Seq<DeviceInfoView>,
) -> Seq<(Seq<char>, u64)>
    decreases devices.len(),
{
    if devices.len() == 0 {
        initial
    } else {
        let known = with_new_devices(initial, devices.drop_last());
        let d = devices.last();
        if has_key(known, d.name) {
            known
        } else {
            put(known, d.name, d.io_errors)
        }
    }
}

pub(crate) fn add_new_devices(initial: &mut StrMap<u64>, devices: &Vec<DeviceInfo>)
    ensures
        final(initial)@ == with_new_devices(old(initial)@, views(devices@)),
{
    let ghost all = views(devices@);
    let ghost start = initial@;
    let mut i: usize = 0;
    proof {
        assert(all.take(0) =~= Seq::<DeviceInfoView>::empty());
    }
    while i < devices.len()
        invariant
            i <= all.len(),
            all == views(devices@),
            initial@ == with_new_devices(start, all.take(i as int)),
        decreases all.len() - i,
    {
        proof {
            assert(all.take(i + 1).drop_last() =~= all.take(i as int));
            assert(all.take(i + 1).last() == devices@[i as int]@);
        }
        let d = &devices[i];
        if !initial.contains_key(d.name.as_str()) {
            initial.insert(d.name.as_str(), d.io_errors);
        }
        i = i + 1;
    }
    proof {
        assert(all.take(i as int) =~= all);
    }
}

// -------------------------------------------------------------------- history

pub open spec fn read_rates(devices: Seq<DeviceRateView>) -> Seq<Double> {
    Seq::new(devices.len(), |i: int| devices[i].read_bytes_sec)
}

pub open spec fn write_rates(devices: Seq<DeviceRateView>) -> Seq<Double> {
    Seq::new(devices.len(), |i: int| devices[i].write_bytes_sec)
}

pub open spec fn read_operations(devices: Seq<DeviceRateView>) -> Seq<Double> {
    Seq::new(devices.len(), |i: int| devices[i].read_iops)
}

pub open spec fn write_operations(devices: Seq<DeviceRateView>) -> Seq<Double> {
    Seq::new(devices.len(), |i: int| devices[i].write_iops)
}

pub open spec fn any_reads(devices: Seq<DeviceRateView>) -> bool {
    exists|i: int| 0 <= i < devices.len() && (#[trigger] devices[i]).read_active
}

pub open spec fn any_writes(devices: Seq<DeviceRateView>) -> bool {
    exists|i: int| 0 <= i < devices.len() && (#[trigger] devices[i]).write_active
}

/// Totals over all devices.
pub struct Totals {
    pub read_bytes: Double,
    pub write_bytes: Double,
    pub read_iops: Double,
    pub write_iops: Double,
    pub reads: bool,
    pub writes: bool,
}

pub open spec fn totals_of(devices: Seq<DeviceRateView>) -> Totals {
    Totals {
        read_bytes: total_of(read_rates(devices)),
        write_bytes: total_of(write_rates(devices)),
        read_iops: total_of(read_operations(devices)),
        write_iops: total_of(write_operations(devices)),
        reads: any_reads(devices),
        writes: any_writes(devices),
    }
}

proof fn lemma_totals(devices: Seq<DeviceRateView>, i: int)
    requires
        0 <= i < devices.len(),
    ensures
        ({
            let a = devices.take(i);
            let b = devices.take(i + 1);
            let d = devices[i];
            &&& total_of(read_rates(b)) == sum(total_of(read_rates(a)), d.read_bytes_sec)
            &&& total_of(write_rates(b)) == sum(total_of(write_rates(a)), d.write_bytes_sec)
            &&& total_of(read_operations(b)) == sum(total_of(read_operations(a)), d.read_iops)
            &&& total_of(write_operations(b)) == sum(total_of(write_operations(a)), d.write_iops)
            &&& any_reads(b) == (any_reads(a) || d.read_active)
            &&& any_writes(b) == (any_writes(a) || d.write_active)
        }),
{
    let a = devices.take(i);
    let b = devices.take(i + 1);
    assert(read_rates(b).drop_last() =~= read_rates(a));
    assert(write_rates(b).drop_last() =~= write_rates(a));
    assert(read_operations(b).drop_last() =~= read_operations(a));
    assert(write_operations(b).drop_last() =~= write_operations(a));
    assert(b[i] == devices[i]);
    assert(forall|k: int| 0 <= k < i ==> #[trigger] a[k] == b[k]);
    if any_reads(a) {
        let k = choose|k: int| 0 <= k < a.len() && (#[trigger] a[k]).read_active;
        assert(b[k].read_active);
    }
    if any_writes(a) {
        let k = choose|k: int| 0 <= k < a.len() && (#[trigger] a[k]).write_active;
        assert(b[k].write_active);
    }
    if any_reads(b) && !devices[i].read_active {
        let k = choose|k: int| 0 <= k < b.len() && (#[trigger] b[k]).read_active;
        assert(a[k].read_active);
    }
    if any_writes(b) && !devices[i].write_active {
        let k = choose|k: int| 0 <= k < b.len() && (#[trigger] b[k]).write_active;
        assert(a[k].write_active);
    }
}

pub fn sum_devices(devices: &Vec<DeviceRate>) -> (r: Totals)
    ensures
        r == totals_of(views(devices@)),
{
    let ghost all = views(devices@);
    let start = Double { bits: 0x8000_0000_0000_0000 };
    let mut t = Totals {
        read_bytes: start,
        write_bytes: start,
        read_iops: start,
        write_iops: start,
        reads: false,
        writes: false,
    };
    let mut i: usize = 0;
    proof {
        assert(start == signed(true, 0));
        assert(all.take(0) =~= Seq::<DeviceRateView>::empty());
        assert(t == totals_of(all.take(0)));
    }
    while i < devices.len()
        invariant
            i <= all.len(),
            all == views(devices@),
            t == totals_of(all.take(i as int)),
        decreases all.len() - i,
    {
        proof {
            lemma_totals(all, i as int);
            assert(all[i as int] == devices@[i as int]@);
        }
        let d = &devices[i];
        t = Totals {
            read_bytes: t.read_bytes.plus(d.read_bytes_sec),
            write_bytes: t.write_bytes.plus(d.write_bytes_sec),
            read_iops: t.read_iops.plus(d.read_iops),
            write_iops: t.write_iops.plus(d.write_iops),
            reads: t.reads || d.read_active,
            writes: t.writes || d.write_active,
        };
        i = i + 1;
    }
    proof {
        assert(all.take(i as int) =~= all);
    }
    t
}

/// A latency counts only where there is I/O: the mean does not decay when idle.
pub open spec fn when_active(active: bool, us: Double) -> Double {
    if active {
        us
    } else {
        zero()
    }
}

pub open spec fn with_sample(h: HistoryView, t: Totals, snap: FsSnapshotView) -> HistoryView {
    let a = with_value(h, "io_read_bytes_sec"@, t.read_bytes);
    let b = with_value(a, "io_write_bytes_sec"@, t.write_bytes);
    let c = with_value(b, "io_read_iops"@, t.read_iops);
    let d = with_value(c, "io_write_iops"@, t.write_iops);
    let e = with_value(d, "avg_read_latency_us"@, when_active(t.reads, snap.recent_data_read_us));
    with_value(e, "avg_write_latency_us"@, when_active(t.writes, snap.recent_data_write_us))
}

fn if_active(active: bool, us: Double) -> (r: Double)
    ensures
        r == when_active(active, us),
{
    if active {
        us
    } else {
        Double::zero()
    }
}

fn push_sample(h: &mut History, t: &Totals, snap: &FsSnapshot)
    requires
        old(h).capacity > 0,
    ensures
        final(h)@ == with_sample(old(h)@, *t, snap@),
{
    h.push("io_read_bytes_sec", t.read_bytes);
    h.push("io_write_bytes_sec", t.write_bytes);
    h.push("io_read_iops", t.read_iops);
    h.push("io_write_iops", t.write_iops);
    h.push("avg_read_latency_us", if_active(t.reads, snap.recent_data_read_us));
    h.push("avg_write_latency_us", if_active(t.writes, snap.recent_data_write_us));
}

/// The share of the processors' time spent waiting for I/O.
pub open spec fn iowait_share(before: FsSnapshotView, now: FsSnapshotView) -> Double {
    percent(rise(before.cpu_iowait, now.cpu_iowait), rise(before.cpu_total, now.cpu_total))
}

fn find_iowait(before: &FsSnapshot, now: &FsSnapshot) -> (r: Double)
    ensures
        r == iowait_share(before@, now@),
{
    share_pct(
        now.cpu_iowait.saturating_sub(before.cpu_iowait),
        now.cpu_total.saturating_sub(before.cpu_total),
    )
}

// --------------------------------------------------------------------- stalls

/// Whether the reads of btree nodes since the last sample were slow.
pub open spec fn btree_stalled(before: FsSnapshotView, now: FsSnapshotView) -> bool {
    now.btree_read_count > before.btree_read_count && whole(50_000).less(now.recent_btree_read_us)
}

pub fn btree_read_stalled(previous: &FsSnapshot, current: &FsSnapshot) -> (r: bool)
    ensures
        r == btree_stalled(previous@, current@),
{
    current.btree_read_count > previous.btree_read_count && Double::from_u64(50_000).is_less(
        current.recent_btree_read_us,
    )
}

/// How full the journal is.
pub open spec fn fill_share(fill: (u64, u64)) -> Double {
    percent(fill.0, fill.1)
}

pub open spec fn journal_filling(before: FsSnapshotView, now: FsSnapshotView) -> bool {
    now.journal_fill.0 > before.journal_fill.0 + 1000 && whole(70).less(fill_share(now.journal_fill))
}

/// A list with an event in front, where it happened.
pub open spec fn preceded_by(events: Seq<StallEventView>, happened: bool, e: StallEventView) -> Seq<
    StallEventView,
> {
    if happened {
        seq![e] + events
    } else {
        events
    }
}

pub open spec fn slow_event(
    now: Instant,
    direction: Seq<char>,
    operation: Seq<char>,
    us: Double,
) -> StallEventView {
    StallEventView {
        time: now,
        device: "fs"@,
        direction,
        detail: operation + " recent mean "@ + microseconds_text(us),
    }
}

pub open spec fn journal_event(now: Instant, fill: (u64, u64)) -> StallEventView {
    StallEventView {
        time: now,
        device: "journal"@,
        direction: "write"@,
        detail: "filling rapidly: "@ + fixed(fill_share(fill), 0) + "%"@,
    }
}

/// The stalls of a sample before those of earlier ones, the ten newest of them.
pub open spec fn with_stalls(
    events: Seq<StallEventView>,
    before: FsSnapshotView,
    snap: FsSnapshotView,
    reads: bool,
    writes: bool,
    now: Instant,
) -> Seq<StallEventView> {
    let a = preceded_by(
        events,
        reads && whole(200_000).less(snap.recent_data_read_us),
        slow_event(now, "read"@, "data_read"@, snap.recent_data_read_us),
    );
    let b = preceded_by(
        a,
        writes && whole(200_000).less(snap.recent_data_write_us),
        slow_event(now, "write"@, "data_write"@, snap.recent_data_write_us),
    );
    let c = preceded_by(
        b,
        btree_stalled(before, snap),
        slow_event(now, "read"@, "btree_read"@, snap.recent_btree_read_us),
    );
    let d = preceded_by(
        c,
        journal_filling(before, snap),
        journal_event(now, snap.journal_fill),
    );
    first_of(d, MAX_STALLS as nat)
}

/// The stalls that are younger than a minute.
pub open spec fn young_stalls(events: Seq<StallEventView>, now: Instant) -> Seq<StallEventView>
    decreases events.len(),
{
    if events.len() == 0 {
        Seq::empty()
    } else if since(now, events.last().time) < STALL_KEPT {
        young_stalls(events.drop_last(), now).push(events.last())
    } else {
        young_stalls(events.drop_last(), now)
    }
}

fn add_stall(events: &mut Vec<StallEvent>, happened: bool, e: StallEvent)
    ensures
        views(final(events)@) == preceded_by(views(old(events)@), happened, e@),
{
    let ghost before = events@;
    if happened {
        events.insert(0, e);
        assert(views(events@) =~= seq![e@] + views(before));
    }
}

fn make_slow_event(now: Instant, direction: &'static str, operation: &str, us: Double) -> (r:
    StallEvent)
    ensures
        r@ == slow_event(now, direction@, operation@, us),
{
    StallEvent {
        time: now,
        device: copy("fs"),
        direction,
        detail: cat3(operation, " recent mean ", format_duration_us(us).as_str()),
    }
}

fn add_stalls(
    events: &mut Vec<StallEvent>,
    before: &FsSnapshot,
    snap: &FsSnapshot,
    reads: bool,
    writes: bool,
    now: Instant,
)
    ensures
        views(final(events)@) == with_stalls(
            views(old(events)@),
            before@,
            snap@,
            reads,
            writes,
            now,
        ),
{
    let slow = Double::from_u64(200_000);
    add_stall(
        events,
        reads && slow.is_less(snap.recent_data_read_us),
        make_slow_event(now, "read", "data_read", snap.recent_data_read_us),
    );
    add_stall(
        events,
        writes && slow.is_less(snap.recent_data_write_us),
        make_slow_event(now, "write", "data_write", snap.recent_data_write_us),
    );
    add_stall(
        events,
        btree_read_stalled(before, snap),
        make_slow_event(now, "read", "btree_read", snap.recent_btree_read_us),
    );
    let pct = share_pct(snap.journal_fill.0, snap.journal_fill.1);
    let filling = snap.journal_fill.0 > before.journal_fill.0 && snap.journal_fill.0
        - before.journal_fill.0 > 1000 && Double::from_u64(70).is_less(pct);
    let e = StallEvent {
        time: now,
        device: copy("journal"),
        direction: "write",
        detail: cat3("filling rapidly: ", fixed_text(pct, 0).as_str(), "%"),
    };
    add_stall(events, filling, e);
    let ghost all = views(events@);
    if events.len() > MAX_STALLS {
        events.truncate(MAX_STALLS);
        assert(views(events@) =~= all.take(MAX_STALLS as int));
    }
}

fn drop_old_stalls(events: &Vec<StallEvent>, now: Instant) -> (r: Vec<StallEvent>)
    ensures
        views(r@) == young_stalls(views(events@), now),
{
    broadcast use lemma_views_push;

    let ghost all = views(events@);
    let mut r: Vec<StallEvent> = Vec::new();
    let mut i: usize = 0;
    proof {
        assert(all.take(0) =~= Seq::<StallEventView>::empty());
        assert(views(r@) =~= Seq::<StallEventView>::empty());
    }
    while i < events.len()
        invariant
            i <= all.len(),
            all == views(events@),
            views(r@) == young_stalls(all.take(i as int), now),
        decreases all.len() - i,
    {
        proof {
            assert(all.take(i + 1).drop_last() =~= all.take(i as int));
            assert(all.take(i + 1).last() == events@[i as int]@);
        }
        if time_since(now, events[i].time) < STALL_KEPT {
            r.push(events[i].duplicate());
        }
        i = i + 1;
    }
    proof {
        assert(all.take(i as int) =~= all);
    }
    r
}

// --------------------------------------------------------------------- deltas

/// The count of a blocked operation in a list, or `other` where it is not there.
pub open spec fn blocked_before(
    stats: Seq<(Seq<char>, u64, Double)>,
    name: Seq<char>,
    other: u64,
) -> u64
    decreases stats.len(),
{
    if stats.len() == 0 {
        other
    } else if stats[0].0 == name {
        stats[0].1
    } else {
        blocked_before(stats.skip(1), name, other)
    }
}

pub open spec fn blocked_delta(
    before: Seq<(Seq<char>, u64, Double)>,
    b: (Seq<char>, u64, Double),
) -> (Seq<char>, u64, Double) {
    (b.0, rise(blocked_before(before, b.0, b.1), b.1), b.2)
}

pub open spec fn blocked_changes(
    before: Seq<(Seq<char>, u64, Double)>,
    now: Seq<(Seq<char>, u64, Double)>,
) -> Seq<(Seq<char>, u64, Double)> {
    Seq::new(now.len(), |i: int| blocked_delta(before, now[i]))
}

fn find_blocked(stats: &Vec<(String, u64, Double)>, name: &str, other: u64) -> (r: u64)
    ensures
        r == blocked_before(views(stats@), name@, other),
{
    let ghost all = views(stats@);
    let mut i: usize = 0;
    proof {
        assert(all.skip(0) =~= all);
    }
    while i < stats.len()
        invariant
            i <= all.len(),
            all == views(stats@),
            blocked_before(all, name@, other) == blocked_before(all.skip(i as int), name@, other),
        decreases all.len() - i,
    {
        proof {
            assert(all.skip(i as int).skip(1) =~= all.skip(i + 1));
            assert(all.skip(i as int)[0] == stats@[i as int]@);
        }
        if same(stats[i].0.as_str(), name) {
            return stats[i].1;
        }
        i = i + 1;
    }
    other
}

fn blocked_since(before: &Vec<(String, u64, Double)>, now: &Vec<(String, u64, Double)>) -> (r: Vec<
    (String, u64, Double),
>)
    ensures
        views(r@) == arranged::<(String, u64, Double), ByActivity>(
            blocked_changes(views(before@), views(now@)),
        ),
{
    let mut out: Vec<(String, u64, Double)> = Vec::new();
    let mut i: usize = 0;
    while i < now.len()
        invariant
            i <= now@.len(),
            out@.len() == i,
            forall|k: int|
                0 <= k < i ==> (#[trigger] out@[k])@ == blocked_delta(
                    views(before@),
                    views(now@)[k],
                ),
        decreases now@.len() - i,
    {
        let b = &now[i];
        assert(views(now@)[i as int] == (b.0@, b.1, b.2));
        let earlier = find_blocked(before, b.0.as_str(), b.1);
        out.push((copy(b.0.as_str()), b.1.saturating_sub(earlier), b.2));
        i = i + 1;
    }
    assert(views(out@) =~= blocked_changes(views(before@), views(now@)));
    sort::<(String, u64, Double), ByActivity>(out)
}

pub open spec fn stat_before(stats: Seq<TimeStatFullView>, name: Seq<char>, other: u64) -> u64
    decreases stats.len(),
{
    if stats.len() == 0 {
        other
    } else if stats[0].name == name {
        stats[0].count
    } else {
        stat_before(stats.skip(1), name, other)
    }
}

pub open spec fn stat_delta(before: Seq<TimeStatFullView>, t: TimeStatFullView) -> TimeStatModel {
    TimeStatModel {
        name: t.name,
        count_delta: rise(stat_before(before, t.name, t.count), t.count),
        count_total: t.count,
        mean_ns: t.dur_mean_ns,
        recent_ns: t.dur_recent_ns,
        max_ns: t.dur_max_ns,
        is_blocked: has_prefix(t.name, "blocked_"@),
    }
}

pub open spec fn stat_changes(before: Seq<TimeStatFullView>, now: Seq<TimeStatFullView>) -> Seq<
    TimeStatModel,
> {
    Seq::new(now.len(), |i: int| stat_delta(before, now[i]))
}

/// By what the sample added from the highest down, blocked operations first
/// among equals, then by name.
pub struct ByDelta;

impl Rule<TimeStatView> for ByDelta {
    open spec fn before(a: TimeStatModel, b: TimeStatModel) -> bool {
        a.count_delta > b.count_delta || (a.count_delta == b.count_delta && ((a.is_blocked
            && !b.is_blocked) || (a.is_blocked == b.is_blocked && text_before(a.name, b.name))))
    }

    fn precedes(a: &TimeStatView, b: &TimeStatView) -> (r: bool) {
        a.count_delta > b.count_delta || (a.count_delta == b.count_delta && ((a.is_blocked
            && !b.is_blocked) || (a.is_blocked == b.is_blocked && precedes_text(
            a.name.as_str(),
            b.name.as_str(),
        ))))
    }
}

fn find_stat(stats: &Vec<TimeStatFull>, name: &str, other: u64) -> (r: u64)
    ensures
        r == stat_before(views(stats@), name@, other),
{
    let ghost all = views(stats@);
    let mut i: usize = 0;
    proof {
        assert(all.skip(0) =~= all);
    }
    while i < stats.len()
        invariant
            i <= all.len(),
            all == views(stats@),
            stat_before(all, name@, other) == stat_before(all.skip(i as int), name@, other),
        decreases all.len() - i,
    {
        proof {
            assert(all.skip(i as int).skip(1) =~= all.skip(i + 1));
            assert(all.skip(i as int)[0] == stats@[i as int]@);
        }
        if same(stats[i].name.as_str(), name) {
            return stats[i].count;
        }
        i = i + 1;
    }
    other
}

fn stats_since(before: &Vec<TimeStatFull>, now: &Vec<TimeStatFull>) -> (r: Vec<TimeStatView>)
    ensures
        views(r@) == arranged::<TimeStatView, ByDelta>(stat_changes(views(before@), views(now@))),
{
    let mut out: Vec<TimeStatView> = Vec::new();
    let mut i: usize = 0;
    while i < now.len()
        invariant
            i <= now@.len(),
            out@.len() == i,
            forall|k: int|
                0 <= k < i ==> (#[trigger] out@[k])@ == stat_delta(views(before@), views(now@)[k]),
        decreases now@.len() - i,
    {
        let t = &now[i];
        let earlier = find_stat(before, t.name.as_str(), t.count);
        let row = TimeStatView {
            name: copy(t.name.as_str()),
            count_delta: t.count.saturating_sub(earlier),
            count_total: t.count,
            mean_ns: t.dur_mean_ns,
            recent_ns: t.dur_recent_ns,
            max_ns: t.dur_max_ns,
            is_blocked: starts_with(t.name.as_str(), "blocked_"),
        };
        out.push(row);
        i = i + 1;
    }
    assert(views(out@) =~= stat_changes(views(before@), views(now@)));
    sort::<TimeStatView, ByDelta>(out)
}

pub open spec fn counter_delta(before: Seq<(Seq<char>, u64)>, c: (Seq<char>, u64)) -> (
    Seq<char>,
    u64,
    u64,
) {
    let earlier = match find(before, c.0) {
        Some(n) => n,
        None => c.1,
    };
    (c.0, rise(earlier, c.1), c.1)
}

pub open spec fn counter_changes(before: Seq<(Seq<char>, u64)>, now: Seq<(Seq<char>, u64)>) -> Seq<
    (Seq<char>, u64, u64),
> {
    Seq::new(now.len(), |i: int| counter_delta(before, now[i]))
}

impl Rule<(String, u64, u64)> for ByDelta {
    open spec fn before(a: (Seq<char>, u64, u64), b: (Seq<char>, u64, u64)) -> bool {
        a.1 > b.1 || (a.1 == b.1 && text_before(a.0, b.0))
    }

    fn precedes(a: &(String, u64, u64), b: &(String, u64, u64)) -> (r: bool) {
        a.1 > b.1 || (a.1 == b.1 && precedes_text(a.0.as_str(), b.0.as_str()))
    }
}

fn counters_since(before: &StrMap<u64>, now: &StrMap<u64>) -> (r: Vec<(String, u64, u64)>)
    ensures
        views(r@) == arranged::<(String, u64, u64), ByDelta>(counter_changes(before@, now@)),
{
    let mut out: Vec<(String, u64, u64)> = Vec::new();
    let mut i: usize = 0;
    while i < now.len()
        invariant
            i <= now@.len(),
            out@.len() == i,
            forall|k: int|
                0 <= k < i ==> (#[trigger] out@[k])@ == counter_delta(before@, now@[k]),
        decreases now@.len() - i,
    {
        let name = now.key_at(i);
        let n = *now.value_at(i);
        let earlier = match before.get(name) {
            Some(m) => *m,
            None => n,
        };
        out.push((copy(name), n.saturating_sub(earlier), n));
        i = i + 1;
    }
    assert(views(out@) =~= counter_changes(before@, now@));
    sort::<(String, u64, u64), ByDelta>(out)
}

// ----------------------------------------------------------------- the sample

pub open spec fn last_row(rates: Option<RatesView>) -> usize {
    match rates {
        Some(r) => if r.devices.len() > 0 {
            (r.devices.len() - 1) as usize
        } else {
            0
        },
        None => 0,
    }
}

impl AppView {
    pub open spec fn new_rates(self, snap: FsSnapshotView, now: Instant) -> RatesView {
        rates_between(
            self.current.devices,
            snap.devices,
            seconds(since(now, self.last_tick)),
        )
    }

    /// With the measurements of a snapshot against the current one.
    pub open spec fn measured(self, snap: FsSnapshotView, now: Instant) -> AppView {
        AppView {
            last_tick: now,
            sample_interval: seconds(since(now, self.last_tick)),
            initial_errors: with_new_devices(self.initial_errors, snap.devices),
            history: with_sample(
                self.history,
                totals_of(self.new_rates(snap, now).devices),
                snap,
            ),
            iowait_pct: iowait_share(self.current, snap),
            tuning: self.tuning.relisted(snap.options),
            ..self
        }
    }

    /// With the stalls of a snapshot, and without those that are old.
    pub open spec fn with_new_stalls(
        self,
        snap: FsSnapshotView,
        rates: RatesView,
        now: Instant,
    ) -> AppView {
        let totals = totals_of(rates.devices);
        let events = if self.previous is Some {
            with_stalls(
                self.stall_events,
                self.current,
                snap,
                totals.reads,
                totals.writes,
                now,
            )
        } else {
            self.stall_events
        };
        AppView { stall_events: young_stalls(events, now), ..self }
    }

    /// With what a snapshot adds to the counts of the current one.
    pub open spec fn with_deltas(self, snap: FsSnapshotView) -> AppView {
        AppView {
            blocked_deltas: arranged::<(String, u64, Double), ByActivity>(
                blocked_changes(self.current.blocked_stats, snap.blocked_stats),
            ),
            time_stats_view: arranged::<TimeStatView, ByDelta>(
                stat_changes(self.current.all_time_stats, snap.all_time_stats),
            ),
            counter_deltas: arranged::<(String, u64, u64), ByDelta>(
                counter_changes(self.current.counters, snap.counters),
            ),
            ..self
        }
    }

    /// With a snapshot in place of the current one.
    pub open spec fn with_current(self, snap: FsSnapshotView, rates: RatesView) -> AppView {
        let last = last_row(Some(rates));
        AppView {
            previous: Some(self.current),
            current: snap,
            rates: Some(rates),
            device_scroll: if self.device_scroll <= last {
                self.device_scroll
            } else {
                last
            },
            ..self
        }
    }

    /// With a new snapshot taken in.
    pub open spec fn sampled(self, snap: FsSnapshotView, now: Instant) -> AppView {
        let rates = self.new_rates(snap, now);
        self.measured(snap, now).with_new_stalls(snap, rates, now).with_deltas(snap).with_current(
            snap,
            rates,
        )
    }

    /// With the findings that the snapshot supports.
    pub open spec fn diagnosed(self, now: Instant) -> AppView {
        AppView {
            diagnostics: updated(
                self.diagnostics,
                self.fs.uuid,
                self.current,
                now,
                self.expected_interval,
            ),
            target_reports: reports(self.current),
            ..self
        }
    }

    /// What is known of a hint whose rule no longer selects it.
    pub open spec fn retained_status(self, id: Seq<char>) -> HintStatus {
        match find(self.diagnostics.findings, id) {
            Some(d) => match d.status {
                Status::Active => HintStatus::Current,
                Status::Resolved => HintStatus::Resolved,
                Status::Stale => HintStatus::Stale,
            },
            None => HintStatus::LastObserved,
        }
    }

    /// With the hint that is due. One that is no longer due stays until it has
    /// been there long enough to be read, and says so.
    pub open spec fn hinted(self, now: Instant) -> AppView {
        self.with_hint(hint_of(self, now), now)
    }

    pub open spec fn without_hint(self) -> AppView {
        AppView {
            proposal: None,
            proposal_first_shown: None,
            hint_status: HintStatus::Current,
            ..self
        }
    }

    /// Whether the hint has not been there long enough.
    pub open spec fn hint_stays(self, now: Instant) -> bool {
        match self.proposal_first_shown {
            Some(at) => since(now, at) < MIN_HINT_DISPLAY,
            None => false,
        }
    }

    /// Since when a hint is shown.
    pub open spec fn shown_since(self, id: Seq<char>, now: Instant) -> Option<Instant> {
        match self.proposal {
            Some(p) => if p.id == id {
                self.proposal_first_shown
            } else {
                Some(now)
            },
            None => Some(now),
        }
    }

    pub open spec fn with_hint(self, due: Option<ProposalView>, now: Instant) -> AppView {
        match due {
            Some(new) => AppView {
                proposal: Some(new),
                hint_status: HintStatus::Current,
                proposal_first_shown: self.shown_since(new.id, now),
                ..self
            },
            None => match self.proposal {
                Some(p) => if self.hint_stays(now) {
                    AppView { hint_status: self.retained_status(p.id), ..self }
                } else {
                    self.without_hint()
                },
                None => self,
            },
        }
    }

    /// With the rates of processes, where they are shown.
    pub open spec fn with_processes(self, processes: Option<Seq<ProcessIoView>>) -> AppView {
        match processes {
            Some(now) => if self.show_processes {
                AppView {
                    process_rates: process_rates(
                        self.prev_proc_io,
                        now,
                        self.sample_interval,
                        TOP_PROCESSES,
                        self.process_rates,
                    ),
                    prev_proc_io: now,
                    ..self
                }
            } else {
                self
            },
            None => self,
        }
    }

    pub open spec fn without_status(self) -> AppView {
        AppView { status_msg: None, status_msg_since: None, status_msg_rendered: false, ..self }
    }

    /// Without a message that has been read.
    pub open spec fn faded(self, now: Instant) -> AppView {
        match self.status_msg_since {
            Some(at) => if self.status_msg_rendered && since(now, at) >= STATUS_DISPLAY {
                self.without_status()
            } else {
                self
            },
            None => self,
        }
    }

    pub open spec fn ticked(
        self,
        snap: FsSnapshotView,
        now: Instant,
        processes: Option<Seq<ProcessIoView>>,
    ) -> AppView {
        self.sampled(snap, now).diagnosed(now).hinted(now).with_processes(processes).faded(now)
    }
}

impl App {
    fn sample_rates(&mut self, snap: &FsSnapshot, now: Instant) -> (r: Rates)
        requires
            old(self).history.capacity > 0,
        ensures
            final(self)@ == old(self)@.measured(snap@, now),
            r@ == old(self)@.new_rates(snap@, now),
            final(self).history.capacity == old(self).history.capacity,
    {
        let dt = to_seconds(time_since(now, self.last_tick));
        let rates = compute_rates(&self.current, snap, dt);
        let totals = sum_devices(&rates.devices);
        let iowait = find_iowait(&self.current, snap);
        add_new_devices(&mut self.initial_errors, &snap.devices);
        push_sample(&mut self.history, &totals, snap);
        self.tuning.refresh_names(&snap.options);
        self.last_tick = now;
        self.sample_interval = dt;
        self.iowait_pct = iowait;
        rates
    }

    fn sample_stalls(&mut self, snap: &FsSnapshot, rates: &Rates, now: Instant)
        ensures
            final(self)@ == old(self)@.with_new_stalls(snap@, rates@, now),
            final(self).history.capacity == old(self).history.capacity,
    {
        let totals = sum_devices(&rates.devices);
        if self.previous.is_some() {
            add_stalls(
                &mut self.stall_events,
                &self.current,
                snap,
                totals.reads,
                totals.writes,
                now,
            );
        }
        let young = drop_old_stalls(&self.stall_events, now);
        self.stall_events = young;
    }

    fn sample_deltas(&mut self, snap: &FsSnapshot)
        ensures
            final(self)@ == old(self)@.with_deltas(snap@),
            final(self).history.capacity == old(self).history.capacity,
    {
        let blocked = blocked_since(&self.current.blocked_stats, &snap.blocked_stats);
        let stats = stats_since(&self.current.all_time_stats, &snap.all_time_stats);
        let counters = counters_since(&self.current.counters, &snap.counters);
        self.blocked_deltas = blocked;
        self.time_stats_view = stats;
        self.counter_deltas = counters;
    }

    fn replace_current(&mut self, snap: FsSnapshot, rates: Rates)
        ensures
            final(self)@ == old(self)@.with_current(snap@, rates@),
            final(self).history.capacity == old(self).history.capacity,
    {
        let n = rates.devices.len();
        assert(rates@.devices.len() == n);
        let last: usize = if n > 0 {
            n - 1
        } else {
            0
        };
        let row = if self.device_scroll <= last {
            self.device_scroll
        } else {
            last
        };
        let mut earlier = snap;
        std::mem::swap(&mut self.current, &mut earlier);
        self.previous = Some(earlier);
        self.rates = Some(rates);
        self.device_scroll = row;
    }

    fn sample(&mut self, snap: FsSnapshot, now: Instant)
        requires
            old(self).history.capacity > 0,
        ensures
            final(self)@ == old(self)@.sampled(snap@, now),
            final(self).history.capacity == old(self).history.capacity,
    {
        let rates = self.sample_rates(&snap, now);
        self.sample_stalls(&snap, &rates, now);
        self.sample_deltas(&snap);
        self.replace_current(snap, rates);
    }

    fn diagnose(&mut self, now: Instant)
        ensures
            final(self)@ == old(self)@.diagnosed(now),
            final(self).history.capacity == old(self).history.capacity,
    {
        self.diagnostics.update(
            self.fs.uuid.as_str(),
            &self.current,
            now,
            self.expected_interval,
        );
        self.target_reports = analyze(&self.current);
    }

    fn find_retained_status(&self, id: &str) -> (r: HintStatus)
        ensures
            r == self@.retained_status(id@),
    {
        match self.diagnostics.findings.get(id) {
            Some(d) => match d.status {
                Status::Active => HintStatus::Current,
                Status::Resolved => HintStatus::Resolved,
                Status::Stale => HintStatus::Stale,
            },
            None => HintStatus::LastObserved,
        }
    }

    fn keeps_hint(&self, now: Instant) -> (r: bool)
        ensures
            r == self@.hint_stays(now),
    {
        match self.proposal_first_shown {
            Some(at) => time_since(now, at) < MIN_HINT_DISPLAY,
            None => false,
        }
    }

    fn first_shown(&self, id: &str, now: Instant) -> (r: Option<Instant>)
        ensures
            r == self@.shown_since(id@, now),
    {
        match &self.proposal {
            Some(p) => if same(p.id.as_str(), id) {
                self.proposal_first_shown
            } else {
                Some(now)
            },
            None => Some(now),
        }
    }

    fn show_hint(&mut self, new: Proposal, now: Instant)
        ensures
            final(self)@ == old(self)@.with_hint(Some(new@), now),
            final(self).history.capacity == old(self).history.capacity,
    {
        let first = self.first_shown(new.id.as_str(), now);
        self.proposal_first_shown = first;
        self.proposal = Some(new);
        self.hint_status = HintStatus::Current;
    }

    fn retain_hint(&mut self, now: Instant)
        ensures
            final(self)@ == old(self)@.with_hint(None, now),
            final(self).history.capacity == old(self).history.capacity,
    {
        let status = match &self.proposal {
            Some(p) => self.find_retained_status(p.id.as_str()),
            None => {
                return;
            },
        };
        if self.keeps_hint(now) {
            self.hint_status = status;
        } else {
            self.drop_hint();
        }
    }

    pub(crate) fn drop_hint(&mut self)
        ensures
            final(self)@ == old(self)@.without_hint(),
            final(self).history.capacity == old(self).history.capacity,
    {
        self.proposal = None;
        self.proposal_first_shown = None;
        self.hint_status = HintStatus::Current;
    }

    fn update_hint(&mut self, now: Instant)
        ensures
            final(self)@ == old(self)@.hinted(now),
            final(self).history.capacity == old(self).history.capacity,
    {
        match evaluate(self, now) {
            Some(new) => self.show_hint(new, now),
            None => self.retain_hint(now),
        }
    }

    fn update_processes(&mut self, processes: Option<Vec<ProcessIo>>)
        ensures
            final(self)@ == old(self)@.with_processes(opt_views(processes)),
            final(self).history.capacity == old(self).history.capacity,
    {
        if let Some(now) = processes {
            if self.show_processes {
                let rates = compute_process_rates(
                    &self.prev_proc_io,
                    &now,
                    self.sample_interval,
                    TOP_PROCESSES,
                    &self.process_rates,
                );
                self.process_rates = rates;
                self.prev_proc_io = now;
            }
        }
    }

    pub fn clear_status(&mut self)
        ensures
            final(self)@ == old(self)@.without_status(),
            final(self).history.capacity == old(self).history.capacity,
    {
        self.status_msg = None;
        self.status_msg_since = None;
        self.status_msg_rendered = false;
    }

    fn fade_status(&mut self, now: Instant)
        ensures
            final(self)@ == old(self)@.faded(now),
            final(self).history.capacity == old(self).history.capacity,
    {
        if let Some(at) = self.status_msg_since {
            if self.status_msg_rendered && time_since(now, at) >= STATUS_DISPLAY {
                self.clear_status();
            }
        }
    }

    /// Takes a new snapshot in, and the I/O of processes where that is shown.
    pub fn tick(&mut self, snap: FsSnapshot, now: Instant, processes: Option<Vec<ProcessIo>>)
        requires
            old(self).history.capacity > 0,
        ensures
            final(self)@ == old(self)@.ticked(snap@, now, opt_views(processes)),
            final(self).history.capacity == old(self).history.capacity,
    {
        self.sample(snap, now);
        self.diagnose(now);
        self.update_hint(now);
        self.update_processes(processes);
        self.fade_status(now);
    }
}

// ------------------------------------------------------------------------ laws

/// No more than ten stalls are kept, and none for longer than a minute.
pub proof fn law_stalls_are_bounded(app: AppView, snap: FsSnapshotView, now: Instant, i: int)
    requires
        app.stall_events.len() <= 10,
    ensures
        ({
            let next = app.sampled(snap, now).stall_events;
            &&& next.len() <= 10
            &&& 0 <= i < next.len() ==> since(now, next[i].time) < 60_000_000_000
        }),
{
    let m = app.measured(snap, now);
    let totals = totals_of(app.new_rates(snap, now).devices);
    let events = if m.previous is Some {
        with_stalls(m.stall_events, m.current, snap, totals.reads, totals.writes, now)
    } else {
        m.stall_events
    };
    lemma_young(events, now, i);
}

proof fn lemma_young(events: Seq<StallEventView>, now: Instant, i: int)
    ensures
        young_stalls(events, now).len() <= events.len(),
        0 <= i < young_stalls(events, now).len() ==> since(now, young_stalls(events, now)[i].time)
            < STALL_KEPT,
    decreases events.len(),
{
    if events.len() > 0 {
        lemma_young(events.drop_last(), now, i);
    }
}

/// The first sample of a filesystem reports no stall: there is nothing to
/// measure it against. What was reported before only grows old.
pub proof fn law_the_first_sample_stalls_nothing(app: AppView, snap: FsSnapshotView, now: Instant)
    requires
        app.previous is None,
    ensures
        app.sampled(snap, now).stall_events == young_stalls(app.stall_events, now),
{
}

/// A hint stays at least fifteen seconds, unless another takes its place.
pub proof fn law_a_hint_stays_long_enough(app: AppView, now: Instant)
    requires
        app.proposal is Some,
        app.proposal_first_shown is Some,
        since(now, app.proposal_first_shown->0) < 15_000_000_000,
    ensures
        app.hinted(now).proposal is Some,
        hint_of(app, now) is None ==> app.hinted(now).proposal == app.proposal
            && app.hinted(now).proposal_first_shown == app.proposal_first_shown,
{
}

/// A hint that is no longer due is marked: it is never shown as current unless
/// its finding is.
pub proof fn law_a_retained_hint_is_marked(app: AppView, now: Instant)
    requires
        hint_of(app, now) is None,
        app.hinted(now).proposal is Some,
        app.hinted(now).hint_status == HintStatus::Current,
    ensures
        find(app.diagnostics.findings, app.proposal->0.id) matches Some(d) && d.status
            == Status::Active,
{
}

/// Errors that a device had when it was first seen stay its baseline.
pub proof fn law_baselines_do_not_move(app: AppView, snap: FsSnapshotView, now: Instant, name: Seq<char>)
    requires
        has_key(app.initial_errors, name),
    ensures
        find(app.sampled(snap, now).initial_errors, name) == find(app.initial_errors, name),
{
    lemma_baseline(app.initial_errors, snap.devices, name);
}

proof fn lemma_baseline(
    initial: Seq<(Seq<char>, u64)>,
    devices: Seq<DeviceInfoView>,
    name: Seq<char>,
)
    requires
        has_key(initial, name),
    ensures
        find(with_new_devices(initial, devices), name) == find(initial, name),
    decreases devices.len(),
{
    if devices.len() > 0 {
        let known = with_new_devices(initial, devices.drop_last());
        let d = devices.last();
        lemma_baseline(initial, devices.drop_last(), name);
        law_put_then_find(known, d.name, d.io_errors, name);
    }
}

/// The selected row of the device table exists.
pub proof fn law_the_selected_row_exists(app: AppView, snap: FsSnapshotView, now: Instant)
    ensures
        ({
            let next = app.sampled(snap, now);
            0 < next.rates->0.devices.len() <= usize::MAX ==> next.device_scroll
                < next.rates->0.devices.len()
        }),
{
}

/// Means do not stall a filesystem at rest: while nothing is read or written,
/// the recent means of reads and writes count for nothing, however long they are.
pub proof fn law_idle_means_stall_nothing(
    events: Seq<StallEventView>,
    before: FsSnapshotView,
    snap: FsSnapshotView,
    read_us: Double,
    write_us: Double,
    now: Instant,
)
    ensures
        ({
            let other = FsSnapshotView {
                recent_data_read_us: read_us,
                recent_data_write_us: write_us,
                ..snap
            };
            with_stalls(events, before, snap, false, false, now) == with_stalls(
                events,
                before,
                other,
                false,
                false,
                now,
            )
        }),
{
}

} // verus!
