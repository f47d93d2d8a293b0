//! What the rates, the medians and the lists of the busiest say of the counters
//! that they come from.

use crate::double::{larger, product, quotient, rank, smaller, sum, whole, zero, Double};
use crate::metrics::{
    awaits, category_rates, counterpart, lower_median, pressure_medians, queues, rate_of,
    rates_between, ByRank, DeviceRateView,
};
use crate::order::{
    arranged, how_many, is_ranking, law_arranged_holds_the_same, law_arranged_is_ordered,
    law_arranged_keeps_all, law_arranging_keeps_counts, lemma_how_many_until, Rule,
};
use crate::strmap::{find, keys_ordered};
use crate::sysfs::DeviceInfoView;
use vstd::prelude::*;

verus! {

// ---------------------------------------------------------------------- devices

/// Whether the first device of a list with the number and the name of another
/// stands at a place.
pub open spec fn stands_at(before: Seq<DeviceInfoView>, k: int, d: DeviceInfoView) -> bool {
    &&& 0 <= k < before.len()
    &&& before[k].index == d.index && before[k].name == d.name
    &&& forall|j: int| 0 <= j < k ==> !((#[trigger] before[j]).index == d.index && before[j].name
        == d.name)
}

pub open spec fn stands_nowhere(before: Seq<DeviceInfoView>, d: DeviceInfoView) -> bool {
    forall|j: int|
        0 <= j < before.len() ==> !((#[trigger] before[j]).index == d.index && before[j].name
            == d.name)
}

pub proof fn lemma_counterpart(before: Seq<DeviceInfoView>, d: DeviceInfoView)
    ensures
        forall|k: int| #[trigger] stands_at(before, k, d) ==> counterpart(before, d) == Some(before[k]),
        stands_nowhere(before, d) <==> counterpart(before, d) is None,
        counterpart(before, d) is Some ==> exists|k: int| #[trigger] stands_at(before, k, d),
    decreases before.len(),
{
    if before.len() > 0 {
        let t = before.skip(1);
        lemma_counterpart(t, d);
        if before[0].index == d.index && before[0].name == d.name {
            assert(stands_at(before, 0, d));
            assert forall|k: int| #[trigger] stands_at(before, k, d) implies counterpart(before, d)
                == Some(before[k]) by {
                if k > 0 {
                    assert(!(before[0].index == d.index && before[0].name == d.name));
                }
            }
        } else {
            assert forall|k: int| #[trigger] stands_at(before, k, d) implies counterpart(before, d)
                == Some(before[k]) by {
                assert(stands_at(t, k - 1, d)) by {
                    assert(t[k - 1] == before[k]);
                    assert forall|j: int| 0 <= j < k - 1 implies !((#[trigger] t[j]).index
                        == d.index && t[j].name == d.name) by {
                        assert(t[j] == before[j + 1]);
                    }
                }
            }
            if stands_nowhere(before, d) {
                assert forall|j: int| 0 <= j < t.len() implies !((#[trigger] t[j]).index == d.index
                    && t[j].name == d.name) by {
                    assert(t[j] == before[j + 1]);
                }
            }
            if stands_nowhere(t, d) {
                assert forall|j: int| 0 <= j < before.len() implies !((
                #[trigger] before[j]).index == d.index && before[j].name == d.name) by {
                    if j > 0 {
                        assert(t[j - 1] == before[j]);
                    }
                }
            }
            if counterpart(before, d) is Some {
                let k = choose|k: int| #[trigger] stands_at(t, k, d);
                assert(stands_at(before, k + 1, d)) by {
                    assert(t[k] == before[k + 1]);
                    assert forall|j: int| 0 <= j < k + 1 implies !((#[trigger] before[j]).index
                        == d.index && before[j].name == d.name) by {
                        if j > 0 {
                            assert(t[j - 1] == before[j]);
                        }
                    }
                }
            }
        }
    }
}

/// Every device has its row, in the order of the snapshot, under its own name and
/// with what the kernel says of it now; over no time there are none.
pub proof fn law_every_device_has_a_row(
    before: Seq<DeviceInfoView>,
    now: Seq<DeviceInfoView>,
    dt: Double,
)
    ensures
        dt.at_most(zero()) ==> rates_between(before, now, dt).devices.len() == 0,
        !dt.at_most(zero()) ==> ({
            let rows = rates_between(before, now, dt).devices;
            &&& rows.len() == now.len()
            &&& forall|i: int|
                0 <= i < now.len() ==> {
                    let r = #[trigger] rows[i];
                    &&& r.name == now[i].name && r.label == now[i].label
                    &&& now[i].member_uuid matches Some(uuid) ==> r.member_key == uuid
                    &&& r.sample_seconds == dt
                    &&& r.read_latency_ns == now[i].io_latency_read_ns
                    &&& r.write_latency_ns == now[i].io_latency_write_ns
                    &&& r.io_errors == now[i].io_errors
                    &&& now[i].diskstats_valid ==> r.queue_depth == now[i].diskstats_in_flight
                    &&& !now[i].diskstats_valid ==> r.queue_depth == 0
                }
        }),
{
}

/// Throughput is what the counters of a device rose by over the time between the
/// snapshots, each direction by itself; a counter that stood still or fell moved
/// nothing, nor does a device that was not there before.
pub proof fn law_throughput_is_the_rise_over_the_time(
    before: Seq<DeviceInfoView>,
    now: Seq<DeviceInfoView>,
    dt: Double,
    i: int,
    k: int,
)
    requires
        !dt.at_most(zero()),
        0 <= i < now.len(),
    ensures
        ({
            let d = now[i];
            let p = before[k];
            let r = rates_between(before, now, dt).devices[i];
            &&& stands_at(before, k, d) && p.io_done_read < d.io_done_read ==> r.read_active
                && r.read_bytes_sec == quotient(
                whole((d.io_done_read - p.io_done_read) as nat),
                dt,
            )
            &&& stands_at(before, k, d) && p.io_done_write < d.io_done_write ==> r.write_active
                && r.write_bytes_sec == quotient(
                whole((d.io_done_write - p.io_done_write) as nat),
                dt,
            )
            &&& stands_nowhere(before, d) || (stands_at(before, k, d) && d.io_done_read
                <= p.io_done_read) ==> !r.read_active && r.read_bytes_sec == quotient(whole(0), dt)
            &&& stands_nowhere(before, d) || (stands_at(before, k, d) && d.io_done_write
                <= p.io_done_write) ==> !r.write_active && r.write_bytes_sec == quotient(
                whole(0),
                dt,
            )
        }),
{
    lemma_counterpart(before, now[i]);
}

/// Whether both rows of a device are complete and none of its counters fell.
pub open spec fn rose(p: DeviceInfoView, d: DeviceInfoView) -> bool {
    &&& p.diskstats_valid && d.diskstats_valid
    &&& p.diskstats_reads <= d.diskstats_reads && p.diskstats_writes <= d.diskstats_writes
    &&& p.diskstats_read_ms <= d.diskstats_read_ms && p.diskstats_write_ms <= d.diskstats_write_ms
    &&& p.diskstats_io_ms <= d.diskstats_io_ms
    &&& p.diskstats_weighted_io_ms <= d.diskstats_weighted_io_ms
}

/// What the block layer shows of an interval: requests per second, the mean time of
/// those that completed, the mean number outstanding, and the share of the time
/// that the device was busy. Without an interval it shows nothing.
pub proof fn law_block_rates_are_of_the_interval(
    before: Seq<DeviceInfoView>,
    now: Seq<DeviceInfoView>,
    dt: Double,
    i: int,
    k: int,
)
    requires
        !dt.at_most(zero()),
        0 <= i < now.len(),
    ensures
        ({
            let d = now[i];
            let p = before[k];
            let r = rates_between(before, now, dt).devices[i];
            let reads = d.diskstats_reads - p.diskstats_reads;
            let writes = d.diskstats_writes - p.diskstats_writes;
            &&& stands_at(before, k, d) && rose(p, d) ==> {
                &&& r.diskstats_interval_valid
                &&& r.read_completed == reads && r.write_completed == writes
                &&& r.read_iops == quotient(whole(reads as nat), dt)
                &&& r.write_iops == quotient(whole(writes as nat), dt)
                &&& reads > 0 ==> r.read_await_ms == quotient(
                    whole((d.diskstats_read_ms - p.diskstats_read_ms) as nat),
                    whole(reads as nat),
                )
                &&& writes > 0 ==> r.write_await_ms == quotient(
                    whole((d.diskstats_write_ms - p.diskstats_write_ms) as nat),
                    whole(writes as nat),
                )
                &&& reads == 0 ==> r.read_await_ms == zero()
                &&& writes == 0 ==> r.write_await_ms == zero()
                &&& r.avg_queue_depth == quotient(
                    whole((d.diskstats_weighted_io_ms - p.diskstats_weighted_io_ms) as nat),
                    product(dt, whole(1000)),
                )
                &&& r.util_pct == smaller(
                    product(
                        quotient(
                            whole((d.diskstats_io_ms - p.diskstats_io_ms) as nat),
                            product(dt, whole(1000)),
                        ),
                        whole(100),
                    ),
                    whole(100),
                )
            }
            &&& stands_nowhere(before, d) || (stands_at(before, k, d) && !rose(p, d)) ==> {
                &&& !r.diskstats_interval_valid
                &&& r.read_completed == 0 && r.write_completed == 0
                &&& r.read_iops == quotient(whole(0), dt) && r.write_iops == quotient(whole(0), dt)
                &&& r.read_await_ms == zero() && r.write_await_ms == zero()
                &&& r.avg_queue_depth == zero()
            }
        }),
{
    lemma_counterpart(before, now[i]);
}

proof fn lemma_category(
    now: Seq<(Seq<char>, u64)>,
    before: Seq<(Seq<char>, u64)>,
    dt: Double,
    name: Seq<char>,
)
    requires
        keys_ordered(now),
    ensures
        ({
            let from = match find(before, name) {
                Some(n) => n as int,
                None => 0,
            };
            let found = find(category_rates(now, before, dt), name);
            match find(now, name) {
                Some(n) => {
                    let rate = quotient(
                        whole(
                            if n >= from {
                                (n - from) as nat
                            } else {
                                0
                            },
                        ),
                        dt,
                    );
                    if zero().less(rate) {
                        found == Some(rate)
                    } else {
                        found is None
                    }
                },
                None => found is None,
            }
        }),
    decreases now.len(),
{
    if now.len() > 0 {
        let rest = now.drop_last();
        let n = now.len() - 1;
        assert forall|i: int, j: int| 0 <= i < j < rest.len() implies crate::order::text_before(
            #[trigger] rest[i].0,
            #[trigger] rest[j].0,
        ) by {
            assert(rest[i] == now[i] && rest[j] == now[j]);
        }
        lemma_category(rest, before, dt, name);
        let a = category_rates(rest, before, dt);
        let all = category_rates(now, before, dt);
        assert(rest.push(now.last()) =~= now);
        lemma_found_behind(rest, now.last(), name);
        if all.len() > a.len() {
            lemma_found_behind(a, all.last(), name);
            assert(a.push(all.last()) =~= all);
        }
        if now.last().0 == name {
            lemma_not_before(now, name);
        }
    }
}

/// A key in front of the last is not the last key.
proof fn lemma_not_before(s: Seq<(Seq<char>, u64)>, name: Seq<char>)
    requires
        keys_ordered(s),
        s.len() > 0,
        s.last().0 == name,
    ensures
        find(s.drop_last(), name) is None,
{
    let rest = s.drop_last();
    if find(rest, name) is Some {
        crate::soundness::lemma_found(rest, name);
        let k = choose|k: int| 0 <= k < rest.len() && rest[k] == (name, find(rest, name)->0);
        assert(s[k].0 == name);
        assert(crate::order::text_before(s[k].0, s[s.len() - 1].0));
        crate::order::law_text_order(name, name);
    }
}

proof fn lemma_found_behind<V>(s: Seq<(Seq<char>, V)>, e: (Seq<char>, V), name: Seq<char>)
    ensures
        find(s.push(e), name) == if find(s, name) is Some {
            find(s, name)
        } else if e.0 == name {
            Some(e.1)
        } else {
            None
        },
    decreases s.len(),
{
    let p = s.push(e);
    if s.len() > 0 {
        assert(p.skip(1) =~= s.skip(1).push(e));
        lemma_found_behind(s.skip(1), e, name);
        assert(p[0] == s[0]);
    } else {
        assert(p.skip(1) =~= Seq::<(Seq<char>, V)>::empty());
        assert(find(p.skip(1), name) is None);
        assert(p[0] == e);
    }
}

/// Every category of data has the rate that its own counter rose by, in its own
/// direction; one that moved nothing is not listed.
pub proof fn law_categories_are_measured_apart(
    before: Seq<DeviceInfoView>,
    now: Seq<DeviceInfoView>,
    dt: Double,
    i: int,
    k: int,
    name: Seq<char>,
)
    requires
        !dt.at_most(zero()),
        0 <= i < now.len(),
        stands_at(before, k, now[i]),
        keys_ordered(now[i].io_read_by_type),
        keys_ordered(now[i].io_write_by_type),
    ensures
        ({
            let d = now[i];
            let p = before[k];
            let r = rates_between(before, now, dt).devices[i];
            &&& find(d.io_read_by_type, name) is Some ==> {
                let n = find(d.io_read_by_type, name)->0;
                let m = match find(p.io_read_by_type, name) {
                    Some(m) => m,
                    None => 0,
                };
                let x = quotient(whole((n - m) as nat), dt);
                m <= n && zero().less(x) ==> find(r.read_by_type, name) == Some(x)
            }
            &&& find(d.io_write_by_type, name) is Some ==> {
                let n = find(d.io_write_by_type, name)->0;
                let m = match find(p.io_write_by_type, name) {
                    Some(m) => m,
                    None => 0,
                };
                let x = quotient(whole((n - m) as nat), dt);
                m <= n && zero().less(x) ==> find(r.write_by_type, name) == Some(x)
            }
            &&& find(d.io_read_by_type, name) is None ==> find(r.read_by_type, name) is None
            &&& find(d.io_write_by_type, name) is None ==> find(r.write_by_type, name) is None
            &&& find(r.read_by_type, name) matches Some(x) ==> zero().less(x)
            &&& find(r.write_by_type, name) matches Some(x) ==> zero().less(x)
        }),
{
    lemma_counterpart(before, now[i]);
    lemma_category(now[i].io_read_by_type, before[k].io_read_by_type, dt, name);
    lemma_category(now[i].io_write_by_type, before[k].io_write_by_type, dt, name);
}

/// With every counter of the block layer and of the bytes moved on by as much.
pub open spec fn moved_on(d: DeviceInfoView, by: u64) -> DeviceInfoView {
    DeviceInfoView {
        io_done_read: (d.io_done_read + by) as u64,
        io_done_write: (d.io_done_write + by) as u64,
        diskstats_reads: (d.diskstats_reads + by) as u64,
        diskstats_writes: (d.diskstats_writes + by) as u64,
        diskstats_read_ms: (d.diskstats_read_ms + by) as u64,
        diskstats_write_ms: (d.diskstats_write_ms + by) as u64,
        diskstats_io_ms: (d.diskstats_io_ms + by) as u64,
        diskstats_weighted_io_ms: (d.diskstats_weighted_io_ms + by) as u64,
        ..d
    }
}

pub open spec fn may_move_on(d: DeviceInfoView, by: u64) -> bool {
    &&& d.io_done_read + by <= u64::MAX && d.io_done_write + by <= u64::MAX
    &&& d.diskstats_reads + by <= u64::MAX && d.diskstats_writes + by <= u64::MAX
    &&& d.diskstats_read_ms + by <= u64::MAX && d.diskstats_write_ms + by <= u64::MAX
    &&& d.diskstats_io_ms + by <= u64::MAX && d.diskstats_weighted_io_ms + by <= u64::MAX
}

/// Rates do not depend on what was counted before the interval: a device whose
/// counters all started higher has the same row.
pub proof fn law_lifetime_totals_do_not_count(
    p: DeviceInfoView,
    d: DeviceInfoView,
    by: u64,
    dt: Double,
)
    requires
        may_move_on(p, by),
        may_move_on(d, by),
    ensures
        rates_between(seq![moved_on(p, by)], seq![moved_on(d, by)], dt) == rates_between(
            seq![p],
            seq![d],
            dt,
        ),
{
    let a = seq![moved_on(p, by)];
    let b = seq![p];
    assert(a.skip(1) =~= b.skip(1));
    assert(counterpart(b.skip(1), d) is None) by {
        assert(b.skip(1).len() == 0);
    }
    assert(counterpart(a.skip(1), moved_on(d, by)) is None);
    assert(rate_of(a, moved_on(d, by), dt) == rate_of(b, d, dt));
    assert(rates_between(a, seq![moved_on(d, by)], dt).devices =~= rates_between(
        b,
        seq![d],
        dt,
    ).devices);
}

// ---------------------------------------------------------------------- medians

pub open spec fn ranks_below(m: Double) -> spec_fn(Double) -> bool {
    |x: Double| rank(x) < rank(m)
}

pub open spec fn ranks_up_to(m: Double) -> spec_fn(Double) -> bool {
    |x: Double| rank(x) <= rank(m)
}

/// Whether a number stands at a place once the values are ranked: it is one of
/// them, no more than so many rank below it, and more than so many up to it.
pub open spec fn ranked_at(values: Seq<Double>, k: int, m: Double) -> bool {
    &&& values.contains(m)
    &&& how_many(values, ranks_below(m)) <= k < how_many(values, ranks_up_to(m))
}

/// Whether a number is the median: the middle one of an odd number of values, the
/// mean of the middle two of an even number.
pub open spec fn is_median(values: Seq<Double>, m: Double) -> bool {
    let n = values.len() as int;
    if n % 2 == 1 {
        ranked_at(values, n / 2, m)
    } else {
        exists|a: Double, b: Double|
            #[trigger] ranked_at(values, n / 2 - 1, a) && #[trigger] ranked_at(values, n / 2, b)
                && m == quotient(sum(a, b), whole(2))
    }
}

pub proof fn lemma_ranked(values: Seq<Double>, k: int)
    requires
        0 <= k < values.len(),
    ensures
        ranked_at(values, k, arranged::<Double, ByRank>(values)[k]),
{
    let s = arranged::<Double, ByRank>(values);
    law_arranged_keeps_all::<Double, ByRank>(values);
    assert(is_ranking::<Double, ByRank>());
    law_arranged_is_ordered::<Double, ByRank>(values);
    let m = s[k];
    law_arranged_holds_the_same::<Double, ByRank>(values, m);
    assert(s.contains(m));
    law_arranging_keeps_counts::<Double, ByRank>(values, ranks_below(m));
    law_arranging_keeps_counts::<Double, ByRank>(values, ranks_up_to(m));
    assert forall|i: int| k <= i < s.len() implies !ranks_below(m)(#[trigger] s[i]) by {
        if i > k {
            assert(!<ByRank as Rule<Double>>::before(s[i], s[k]));
        }
    }
    assert forall|i: int| 0 <= i < k + 1 implies ranks_up_to(m)(#[trigger] s[i]) by {
        if i < k {
            assert(!<ByRank as Rule<Double>>::before(s[k], s[i]));
        }
    }
    lemma_how_many_until(s, ranks_below(m), k);
    lemma_how_many_until(s, ranks_up_to(m), k + 1);
}

/// The numbers that stand at one place rank alike, so a median is one number.
pub proof fn law_a_place_is_taken_once(values: Seq<Double>, k: int, a: Double, b: Double)
    requires
        ranked_at(values, k, a),
        ranked_at(values, k, b),
    ensures
        rank(a) == rank(b),
{
    if rank(a) < rank(b) {
        lemma_more(values, ranks_up_to(a), ranks_below(b));
    }
    if rank(b) < rank(a) {
        lemma_more(values, ranks_up_to(b), ranks_below(a));
    }
}

pub proof fn lemma_more<V>(s: Seq<V>, p: spec_fn(V) -> bool, q: spec_fn(V) -> bool)
    requires
        forall|v: V| #[trigger] p(v) ==> q(v),
    ensures
        how_many(s, p) <= how_many(s, q),
    decreases s.len(),
{
    if s.len() > 0 {
        lemma_more(s.drop_last(), p, q);
        assert(p(s.last()) ==> q(s.last()));
    }
}

/// How devices are ranked: the median of an even number is the lower one.
pub open spec fn is_lower_median(values: Seq<Double>, m: Double) -> bool {
    if values.len() == 0 {
        m == zero()
    } else {
        ranked_at(values, (values.len() - 1) / 2, m)
    }
}

/// The requests per second and the longer mean time of a device.
pub open spec fn requests_of(d: DeviceRateView) -> Double {
    sum(d.read_iops, d.write_iops)
}

pub open spec fn longest_of(d: DeviceRateView) -> Double {
    larger(d.read_await_ms, d.write_await_ms)
}

pub open spec fn completes(d: DeviceRateView) -> bool {
    zero().less(requests_of(d))
}

pub open spec fn works(d: DeviceRateView) -> bool {
    d.diskstats_interval_valid && (completes(d) || d.queue_depth > 0 || zero().less(
        d.avg_queue_depth,
    ) || zero().less(d.util_pct))
}

/// Whether a list holds a number of each device of a kind, in their order.
pub open spec fn taken_from(
    values: Seq<Double>,
    devices: Seq<DeviceRateView>,
    kind: spec_fn(DeviceRateView) -> bool,
    number: spec_fn(DeviceRateView) -> Double,
) -> bool
    decreases devices.len(),
{
    if devices.len() == 0 {
        values.len() == 0
    } else if kind(devices.last()) {
        values.len() > 0 && values.last() == number(devices.last()) && taken_from(
            values.drop_last(),
            devices.drop_last(),
            kind,
            number,
        )
    } else {
        taken_from(values, devices.drop_last(), kind, number)
    }
}

pub open spec fn are_times(values: Seq<Double>, devices: Seq<DeviceRateView>) -> bool {
    taken_from(
        values,
        devices,
        |d: DeviceRateView| completes(d),
        |d: DeviceRateView| longest_of(d),
    )
}

pub open spec fn are_depths(values: Seq<Double>, devices: Seq<DeviceRateView>) -> bool {
    taken_from(
        values,
        devices,
        |d: DeviceRateView| works(d),
        |d: DeviceRateView| d.avg_queue_depth,
    )
}

proof fn lemma_taken(devices: Seq<DeviceRateView>)
    ensures
        are_times(awaits(devices), devices),
        are_depths(queues(devices), devices),
    decreases devices.len(),
{
    if devices.len() > 0 {
        let rest = devices.drop_last();
        lemma_taken(rest);
        assert(awaits(rest).push(longest_of(devices.last())).drop_last() =~= awaits(rest));
        assert(queues(rest).push(devices.last().avg_queue_depth).drop_last() =~= queues(rest));
    }
}

/// What devices are held against: the lower median of the longer mean times of
/// those that complete requests, and of the mean queues of those at work.
pub proof fn law_pressure_is_held_against_medians(devices: Seq<DeviceRateView>)
    ensures
        exists|times: Seq<Double>|
            #[trigger] are_times(times, devices) && is_lower_median(times, pressure_medians(devices).0),
        exists|depths: Seq<Double>|
            #[trigger] are_depths(depths, devices) && is_lower_median(depths, pressure_medians(devices).1),
{
    lemma_taken(devices);
    let a = awaits(devices);
    let q = queues(devices);
    if a.len() > 0 {
        lemma_ranked(a, (a.len() - 1) / 2);
    }
    if q.len() > 0 {
        lemma_ranked(q, (q.len() - 1) / 2);
    }
    assert(is_lower_median(a, lower_median(a)));
    assert(is_lower_median(q, lower_median(q)));
}

/// A device at rest is under no pressure. One at work is so where a mean time is
/// above twenty milliseconds and three times the median, where its mean queue is
/// above two and three times the median, or where it is busy for 95 % of the time
/// and takes ten milliseconds; and else it is not.
pub proof fn law_pressure_needs_work_and_a_cause(
    d: DeviceRateView,
    median_await: Double,
    median_queue: Double,
)
    ensures
        ({
            let outlier = d.under_pressure(median_await, median_queue);
            let rest = crate::double::alike(requests_of(d), zero()) && d.queue_depth == 0
                && crate::double::alike(d.avg_queue_depth, zero()) && crate::double::alike(
                d.util_pct,
                zero(),
            );
            let slow = larger(d.read_await_ms, d.write_await_ms);
            let far = product(median_await, whole(3));
            let long = product(median_queue, whole(3));
            &&& rest ==> !outlier
            &&& !rest && whole(20).less(slow) && (far.nan() || far.less(slow)) ==> outlier
            &&& !rest && whole(2).less(d.avg_queue_depth) && (long.nan() || long.less(
                d.avg_queue_depth,
            )) ==> outlier
            &&& !rest && whole(95).at_most(d.util_pct) && whole(10).at_most(slow) ==> outlier
            &&& outlier && !(whole(95).at_most(d.util_pct) && whole(10).at_most(slow)) ==> (whole(
                20,
            ).less(slow) && (far.nan() || far.less(slow))) || (whole(2).less(d.avg_queue_depth) && (
            long.nan() || long.less(d.avg_queue_depth)))
        }),
{
    crate::double::law_whole_numbers_are_ordered(20, 20);
    crate::double::law_whole_numbers_are_ordered(2, 2);
}

} // verus!
