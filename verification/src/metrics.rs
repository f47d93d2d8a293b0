//! Rates between two snapshots.

use crate::double::{
    alike, are_alike, larger, product, quotient, rank, ranks_before, smaller, sum, whole, zero,
    Double,
};
use crate::order::{arranged, law_arranged_keeps_all, precedes_text, sort, text_before, Rule};
use crate::strmap::{behind, find, keys_ordered, put, StrMap};
use crate::sysfs::{DeviceInfo, DeviceInfoView, FsSnapshot, ProcessIo, ProcessIoView};
use crate::text::{copy, dup_vec, lemma_views_push, opt, opt_copy, same, views, Duplicate};
use vstd::prelude::*;

verus! {

/// What one device did between two snapshots.
#[derive(Debug)]
pub struct DeviceRate {
    pub name: String,
    pub label: Option<String>,
    pub member_key: String,
    /// Seconds between the snapshots.
    pub sample_seconds: Double,
    pub read_bytes_sec: Double,
    pub write_bytes_sec: Double,
    /// Bytes per second by category.
    pub read_by_type: StrMap<Double>,
    pub write_by_type: StrMap<Double>,
    /// Recent latency; of use only where there is I/O.
    pub read_latency_ns: u64,
    pub write_latency_ns: u64,
    pub read_active: bool,
    pub write_active: bool,
    pub read_completed: u64,
    pub write_completed: u64,
    pub read_iops: Double,
    pub write_iops: Double,
    pub util_pct: Double,
    /// Requests currently in progress at the block layer.
    pub queue_depth: u64,
    /// Queue depth averaged over the interval.
    pub avg_queue_depth: Double,
    /// Mean completion time of a request during the interval.
    pub read_await_ms: Double,
    pub write_await_ms: Double,
    pub diskstats_interval_valid: bool,
    pub io_errors: u64,
}

#[verifier::ext_equal]
pub struct DeviceRateView {
    pub name: Seq<char>,
    pub label: Option<Seq<char>>,
    pub member_key: Seq<char>,
    pub sample_seconds: Double,
    pub read_bytes_sec: Double,
    pub write_bytes_sec: Double,
    pub read_by_type: Seq<(Seq<char>, Double)>,
    pub write_by_type: Seq<(Seq<char>, Double)>,
    pub read_latency_ns: u64,
    pub write_latency_ns: u64,
    pub read_active: bool,
    pub write_active: bool,
    pub read_completed: u64,
    pub write_completed: u64,
    pub read_iops: Double,
    pub write_iops: Double,
    pub util_pct: Double,
    pub queue_depth: u64,
    pub avg_queue_depth: Double,
    pub read_await_ms: Double,
    pub write_await_ms: Double,
    pub diskstats_interval_valid: bool,
    pub io_errors: u64,
}

impl View for DeviceRate {
    type V = DeviceRateView;

    open spec fn view(&self) -> DeviceRateView {
        DeviceRateView {
            name: self.name@,
            label: opt(self.label),
            member_key: self.member_key@,
            sample_seconds: self.sample_seconds,
            read_bytes_sec: self.read_bytes_sec,
            write_bytes_sec: self.write_bytes_sec,
            read_by_type: self.read_by_type@,
            write_by_type: self.write_by_type@,
            read_latency_ns: self.read_latency_ns,
            write_latency_ns: self.write_latency_ns,
            read_active: self.read_active,
            write_active: self.write_active,
            read_completed: self.read_completed,
            write_completed: self.write_completed,
            read_iops: self.read_iops,
            write_iops: self.write_iops,
            util_pct: self.util_pct,
            queue_depth: self.queue_depth,
            avg_queue_depth: self.avg_queue_depth,
            read_await_ms: self.read_await_ms,
            write_await_ms: self.write_await_ms,
            diskstats_interval_valid: self.diskstats_interval_valid,
            io_errors: self.io_errors,
        }
    }
}

impl DeviceRateView {
    pub open spec fn blank() -> DeviceRateView {
        DeviceRateView {
            name: Seq::empty(),
            label: None,
            member_key: Seq::empty(),
            sample_seconds: zero(),
            read_bytes_sec: zero(),
            write_bytes_sec: zero(),
            read_by_type: Seq::empty(),
            write_by_type: Seq::empty(),
            read_latency_ns: 0,
            write_latency_ns: 0,
            read_active: false,
            write_active: false,
            read_completed: 0,
            write_completed: 0,
            read_iops: zero(),
            write_iops: zero(),
            util_pct: zero(),
            queue_depth: 0,
            avg_queue_depth: zero(),
            read_await_ms: zero(),
            write_await_ms: zero(),
            diskstats_interval_valid: false,
            io_errors: 0,
        }
    }
}

impl Default for DeviceRate {
    fn default() -> (r: DeviceRate)
        ensures
            r@ == DeviceRateView::blank(),
    {
        let r = DeviceRate {
            name: String::new(),
            label: None,
            member_key: String::new(),
            sample_seconds: Double::zero(),
            read_bytes_sec: Double::zero(),
            write_bytes_sec: Double::zero(),
            read_by_type: StrMap::new(),
            write_by_type: StrMap::new(),
            read_latency_ns: 0,
            write_latency_ns: 0,
            read_active: false,
            write_active: false,
            read_completed: 0,
            write_completed: 0,
            read_iops: Double::zero(),
            write_iops: Double::zero(),
            util_pct: Double::zero(),
            queue_depth: 0,
            avg_queue_depth: Double::zero(),
            read_await_ms: Double::zero(),
            write_await_ms: Double::zero(),
            diskstats_interval_valid: false,
            io_errors: 0,
        };
        assert(r@ =~= DeviceRateView::blank());
        r
    }
}

impl Duplicate for DeviceRate {
    fn duplicate(&self) -> (r: DeviceRate) {
        DeviceRate {
            name: copy(self.name.as_str()),
            label: opt_copy(&self.label),
            member_key: copy(self.member_key.as_str()),
            sample_seconds: self.sample_seconds,
            read_bytes_sec: self.read_bytes_sec,
            write_bytes_sec: self.write_bytes_sec,
            read_by_type: self.read_by_type.duplicate(),
            write_by_type: self.write_by_type.duplicate(),
            read_latency_ns: self.read_latency_ns,
            write_latency_ns: self.write_latency_ns,
            read_active: self.read_active,
            write_active: self.write_active,
            read_completed: self.read_completed,
            write_completed: self.write_completed,
            read_iops: self.read_iops,
            write_iops: self.write_iops,
            util_pct: self.util_pct,
            queue_depth: self.queue_depth,
            avg_queue_depth: self.avg_queue_depth,
            read_await_ms: self.read_await_ms,
            write_await_ms: self.write_await_ms,
            diskstats_interval_valid: self.diskstats_interval_valid,
            io_errors: self.io_errors,
        }
    }
}

impl Clone for DeviceRate {
    fn clone(&self) -> (r: DeviceRate)
        ensures
            r@ == self@,
    {
        self.duplicate()
    }
}

#[derive(Debug)]
pub struct Rates {
    pub devices: Vec<DeviceRate>,
}

#[verifier::ext_equal]
pub struct RatesView {
    pub devices: Seq<DeviceRateView>,
}

impl View for Rates {
    type V = RatesView;

    open spec fn view(&self) -> RatesView {
        RatesView {
            devices: views(self.devices@),
        }
    }
}

impl RatesView {
    pub open spec fn blank() -> RatesView {
        RatesView {
            devices: Seq::empty(),
        }
    }
}

impl Default for Rates {
    fn default() -> (r: Rates)
        ensures
            r@ == RatesView::blank(),
    {
        let r = Rates {
            devices: Vec::new(),
        };
        assert(r@ =~= RatesView::blank());
        r
    }
}

impl Duplicate for Rates {
    fn duplicate(&self) -> (r: Rates) {
        Rates {
            devices: dup_vec(&self.devices),
        }
    }
}

impl Clone for Rates {
    fn clone(&self) -> (r: Rates)
        ensures
            r@ == self@,
    {
        self.duplicate()
    }
}

/// What one process did between two samples.
#[derive(Debug)]
pub struct ProcessRate {
    pub pid: u32,
    pub name: String,
    pub read_bytes_sec: Double,
    pub write_bytes_sec: Double,
    /// I/O since the process started.
    pub total_read: u64,
    pub total_write: u64,
}

#[verifier::ext_equal]
pub struct ProcessRateView {
    pub pid: u32,
    pub name: Seq<char>,
    pub read_bytes_sec: Double,
    pub write_bytes_sec: Double,
    pub total_read: u64,
    pub total_write: u64,
}

impl View for ProcessRate {
    type V = ProcessRateView;

    open spec fn view(&self) -> ProcessRateView {
        ProcessRateView {
            pid: self.pid,
            name: self.name@,
            read_bytes_sec: self.read_bytes_sec,
            write_bytes_sec: self.write_bytes_sec,
            total_read: self.total_read,
            total_write: self.total_write,
        }
    }
}

impl Duplicate for ProcessRate {
    fn duplicate(&self) -> (r: ProcessRate) {
        ProcessRate {
            pid: self.pid,
            name: copy(self.name.as_str()),
            read_bytes_sec: self.read_bytes_sec,
            write_bytes_sec: self.write_bytes_sec,
            total_read: self.total_read,
            total_write: self.total_write,
        }
    }
}

impl Clone for ProcessRate {
    fn clone(&self) -> (r: ProcessRate)
        ensures
            r@ == self@,
    {
        self.duplicate()
    }
}

// -------------------------------------------------------------------- pressure

impl DeviceRateView {
    pub open spec fn iops(self) -> Double {
        sum(self.read_iops, self.write_iops)
    }

    pub open spec fn slowest(self) -> Double {
        larger(self.read_await_ms, self.write_await_ms)
    }

    pub open spec fn idle(self) -> bool {
        &&& alike(self.iops(), zero())
        &&& self.queue_depth == 0
        &&& alike(self.avg_queue_depth, zero())
        &&& alike(self.util_pct, zero())
    }

    /// A device far above the medians and above fixed floors, or one that is
    /// busy and slow.
    pub open spec fn under_pressure(self, median_await: Double, median_queue: Double) -> bool {
        &&& !self.idle()
        &&& {
            ||| larger(product(median_await, whole(3)), whole(20)).less(self.slowest())
            ||| larger(product(median_queue, whole(3)), whole(2)).less(self.avg_queue_depth)
            ||| whole(95).at_most(self.util_pct) && whole(10).at_most(self.slowest())
        }
    }

    pub open spec fn score(self, median_await: Double, median_queue: Double) -> Double {
        let outlier = if self.under_pressure(median_await, median_queue) {
            whole(10_000)
        } else {
            zero()
        };
        sum(
            sum(
                sum(
                    sum(outlier, product(self.avg_queue_depth, whole(100))),
                    product(whole(self.queue_depth as nat), whole(10)),
                ),
                self.slowest(),
            ),
            quotient(self.util_pct, whole(100)),
        )
    }
}

impl DeviceRate {
    pub fn total_iops(&self) -> (r: Double)
        ensures
            r == self@.iops(),
    {
        self.read_iops.plus(self.write_iops)
    }

    pub fn max_await_ms(&self) -> (r: Double)
        ensures
            r == self@.slowest(),
    {
        self.read_await_ms.max(self.write_await_ms)
    }

    pub fn pressure_outlier(&self, median_await_ms: Double, median_queue: Double) -> (r: bool)
        ensures
            r == self@.under_pressure(median_await_ms, median_queue),
    {
        if are_alike(self.total_iops(), Double::zero()) && self.queue_depth == 0 && are_alike(
            self.avg_queue_depth,
            Double::zero(),
        ) && are_alike(self.util_pct, Double::zero()) {
            return false;
        }
        let await_limit = median_await_ms.times(Double::from_u64(3)).max(Double::from_u64(20));
        let queue_limit = median_queue.times(Double::from_u64(3)).max(Double::from_u64(2));
        await_limit.is_less(self.max_await_ms()) || queue_limit.is_less(self.avg_queue_depth) || (
        Double::from_u64(95).is_at_most(self.util_pct) && Double::from_u64(10).is_at_most(
            self.max_await_ms(),
        ))
    }

    pub fn pressure_score(&self, median_await_ms: Double, median_queue: Double) -> (r: Double)
        ensures
            r == self@.score(median_await_ms, median_queue),
    {
        let outlier = if self.pressure_outlier(median_await_ms, median_queue) {
            Double::from_u64(10_000)
        } else {
            Double::zero()
        };
        outlier.plus(self.avg_queue_depth.times(Double::from_u64(100))).plus(
            Double::from_u64(self.queue_depth).times(Double::from_u64(10)),
        ).plus(self.max_await_ms()).plus(self.util_pct.over(Double::from_u64(100)))
    }
}

/// Numbers from the lowest up.
pub struct ByRank;

impl Rule<Double> for ByRank {
    open spec fn before(a: Double, b: Double) -> bool {
        rank(a) < rank(b)
    }

    fn precedes(a: &Double, b: &Double) -> (r: bool) {
        ranks_before(*a, *b)
    }
}

/// The lower median; zero of no values.
pub open spec fn lower_median(values: Seq<Double>) -> Double {
    if values.len() == 0 {
        zero()
    } else {
        arranged::<Double, ByRank>(values)[(values.len() - 1) / 2]
    }
}

proof fn lemma_plain_views(v: Seq<Double>)
    ensures
        views(v) == v,
{
    assert(views(v) =~= v);
}

fn median_low(values: Vec<Double>) -> (r: Double)
    ensures
        r == lower_median(values@),
{
    if values.len() == 0 {
        return Double::zero();
    }
    let ghost all = values@;
    let sorted = sort::<Double, ByRank>(values);
    proof {
        lemma_plain_views(all);
        lemma_plain_views(sorted@);
        law_arranged_keeps_all::<Double, ByRank>(all);
    }
    sorted[(sorted.len() - 1) / 2]
}

/// The completion times of the devices with completions.
pub open spec fn awaits(devices: Seq<DeviceRateView>) -> Seq<Double>
    decreases devices.len(),
{
    if devices.len() == 0 {
        Seq::empty()
    } else {
        let rest = awaits(devices.drop_last());
        if zero().less(devices.last().iops()) {
            rest.push(devices.last().slowest())
        } else {
            rest
        }
    }
}

/// The queue depths of the devices with a valid interval and some activity.
pub open spec fn queues(devices: Seq<DeviceRateView>) -> Seq<Double>
    decreases devices.len(),
{
    if devices.len() == 0 {
        Seq::empty()
    } else {
        let rest = queues(devices.drop_last());
        let d = devices.last();
        if d.diskstats_interval_valid && (zero().less(d.iops()) || d.queue_depth > 0 || zero().less(
            d.avg_queue_depth,
        ) || zero().less(d.util_pct)) {
            rest.push(d.avg_queue_depth)
        } else {
            rest
        }
    }
}

pub open spec fn pressure_medians(devices: Seq<DeviceRateView>) -> (Double, Double) {
    (lower_median(awaits(devices)), lower_median(queues(devices)))
}

pub fn device_pressure_medians(devices: &Vec<DeviceRate>) -> (r: (Double, Double))
    ensures
        r == pressure_medians(views(devices@)),
{
    let ghost all = views(devices@);
    let mut a: Vec<Double> = Vec::new();
    let mut q: Vec<Double> = Vec::new();
    let mut i: usize = 0;
    proof {
        assert(all.take(0) =~= Seq::<DeviceRateView>::empty());
    }
    while i < devices.len()
        invariant
            i <= devices@.len() == all.len(),
            all == views(devices@),
            a@ == awaits(all.take(i as int)),
            q@ == queues(all.take(i as int)),
        decreases all.len() - i,
    {
        let d = &devices[i];
        proof {
            assert(all.take(i + 1).drop_last() =~= all.take(i as int));
            assert(all.take(i + 1).last() == d@);
        }
        let active = Double::zero().is_less(d.total_iops());
        if active {
            a.push(d.max_await_ms());
        }
        if d.diskstats_interval_valid && (active || d.queue_depth > 0 || Double::zero().is_less(
            d.avg_queue_depth,
        ) || Double::zero().is_less(d.util_pct)) {
            q.push(d.avg_queue_depth);
        }
        i = i + 1;
    }
    proof {
        assert(all.take(i as int) =~= all);
    }
    (median_low(a), median_low(q))
}

// ----------------------------------------------------------------------- rates

/// Whether the block-layer counters of a device make an interval: both rows
/// complete and no counter falling.
pub open spec fn valid_interval(a: DeviceInfoView, b: DeviceInfoView) -> bool {
    &&& a.diskstats_valid && b.diskstats_valid
    &&& a.diskstats_reads <= b.diskstats_reads
    &&& a.diskstats_writes <= b.diskstats_writes
    &&& a.diskstats_read_ms <= b.diskstats_read_ms
    &&& a.diskstats_write_ms <= b.diskstats_write_ms
    &&& a.diskstats_io_ms <= b.diskstats_io_ms
    &&& a.diskstats_weighted_io_ms <= b.diskstats_weighted_io_ms
}

pub fn valid_diskstats_interval(previous: &DeviceInfo, current: &DeviceInfo) -> (r: bool)
    ensures
        r == valid_interval(previous@, current@),
{
    previous.diskstats_valid && current.diskstats_valid && previous.diskstats_reads
        <= current.diskstats_reads && previous.diskstats_writes <= current.diskstats_writes
        && previous.diskstats_read_ms <= current.diskstats_read_ms && previous.diskstats_write_ms
        <= current.diskstats_write_ms && previous.diskstats_io_ms <= current.diskstats_io_ms
        && previous.diskstats_weighted_io_ms <= current.diskstats_weighted_io_ms
}

/// The device of the same number and name.
pub open spec fn counterpart(devices: Seq<DeviceInfoView>, d: DeviceInfoView) -> Option<
    DeviceInfoView,
>
    decreases devices.len(),
{
    if devices.len() == 0 {
        None
    } else if devices[0].index == d.index && devices[0].name == d.name {
        Some(devices[0])
    } else {
        counterpart(devices.skip(1), d)
    }
}

/// A difference that does not go below zero.
pub open spec fn rise(from: u64, to: u64) -> u64 {
    if to >= from {
        (to - from) as u64
    } else {
        0
    }
}

pub open spec fn per_second(n: u64, dt: Double) -> Double {
    quotient(whole(n as nat), dt)
}

/// The rates of the categories that had any.
pub open spec fn category_rates(
    now: Seq<(Seq<char>, u64)>,
    before: Seq<(Seq<char>, u64)>,
    dt: Double,
) -> Seq<(Seq<char>, Double)>
    decreases now.len(),
{
    if now.len() == 0 {
        Seq::empty()
    } else {
        let rest = category_rates(now.drop_last(), before, dt);
        let from = match find(before, now.last().0) {
            Some(n) => n,
            None => 0,
        };
        let rate = per_second(rise(from, now.last().1), dt);
        if zero().less(rate) {
            rest.push((now.last().0, rate))
        } else {
            rest
        }
    }
}

/// The mean time of a number of requests.
pub open spec fn mean_time(ms: u64, requests: u64) -> Double {
    if requests > 0 {
        quotient(whole(ms as nat), whole(requests as nat))
    } else {
        zero()
    }
}

pub open spec fn milliseconds(dt: Double) -> Double {
    product(dt, whole(1000))
}

/// The share of an interval that a device was busy, in percent and at most
/// all of it.
pub open spec fn busy_share(ms: u64, dt: Double) -> Double {
    smaller(product(quotient(whole(ms as nat), milliseconds(dt)), whole(100)), whole(100))
}

/// The rates of one device. One without a counterpart has no interval: its
/// lifetime totals are no sample.
pub open spec fn rate_of(before: Seq<DeviceInfoView>, d: DeviceInfoView, dt: Double) -> DeviceRateView {
    let found = counterpart(before, d);
    let p = match found {
        Some(p) => p,
        None => d,
    };
    let valid = found is Some && valid_interval(found->0, d);
    let reads = if valid {
        (d.diskstats_reads - p.diskstats_reads) as u64
    } else {
        0
    };
    let writes = if valid {
        (d.diskstats_writes - p.diskstats_writes) as u64
    } else {
        0
    };
    DeviceRateView {
        name: d.name,
        label: d.label,
        member_key: d.key(),
        sample_seconds: dt,
        read_bytes_sec: per_second(rise(p.io_done_read, d.io_done_read), dt),
        write_bytes_sec: per_second(rise(p.io_done_write, d.io_done_write), dt),
        read_by_type: category_rates(d.io_read_by_type, p.io_read_by_type, dt),
        write_by_type: category_rates(d.io_write_by_type, p.io_write_by_type, dt),
        read_latency_ns: d.io_latency_read_ns,
        write_latency_ns: d.io_latency_write_ns,
        read_active: rise(p.io_done_read, d.io_done_read) > 0,
        write_active: rise(p.io_done_write, d.io_done_write) > 0,
        read_completed: reads,
        write_completed: writes,
        read_iops: per_second(reads, dt),
        write_iops: per_second(writes, dt),
        util_pct: busy_share(
            if valid {
                (d.diskstats_io_ms - p.diskstats_io_ms) as u64
            } else {
                0
            },
            dt,
        ),
        queue_depth: if d.diskstats_valid {
            d.diskstats_in_flight
        } else {
            0
        },
        avg_queue_depth: if valid {
            quotient(
                whole((d.diskstats_weighted_io_ms - p.diskstats_weighted_io_ms) as nat),
                milliseconds(dt),
            )
        } else {
            zero()
        },
        read_await_ms: mean_time((d.diskstats_read_ms - p.diskstats_read_ms) as u64, reads),
        write_await_ms: mean_time((d.diskstats_write_ms - p.diskstats_write_ms) as u64, writes),
        diskstats_interval_valid: valid,
        io_errors: d.io_errors,
    }
}

/// The rates of all devices over `dt` seconds; none over no time.
pub open spec fn rates_between(
    before: Seq<DeviceInfoView>,
    now: Seq<DeviceInfoView>,
    dt: Double,
) -> RatesView {
    RatesView {
        devices: if dt.at_most(zero()) {
            Seq::empty()
        } else {
            Seq::new(now.len(), |i: int| rate_of(before, now[i], dt))
        },
    }
}

fn find_counterpart<'a>(devices: &'a Vec<DeviceInfo>, d: &DeviceInfo) -> (r: Option<&'a DeviceInfo>)
    ensures
        match r {
            Some(p) => counterpart(views(devices@), d@) == Some(p@),
            None => counterpart(views(devices@), d@) is None,
        },
{
    let ghost all = views(devices@);
    let mut i: usize = 0;
    proof {
        assert(all.skip(0) =~= all);
    }
    while i < devices.len()
        invariant
            i <= devices@.len() == all.len(),
            all == views(devices@),
            counterpart(all, d@) == counterpart(all.skip(i as int), d@),
        decreases all.len() - i,
    {
        proof {
            assert(all.skip(i as int).skip(1) =~= all.skip(i + 1));
            assert(all.skip(i as int)[0] == devices@[i as int]@);
        }
        if devices[i].index == d.index && same(devices[i].name.as_str(), d.name.as_str()) {
            return Some(&devices[i]);
        }
        i = i + 1;
    }
    None
}

fn diff_map(now: &StrMap<u64>, before: &StrMap<u64>, dt: Double) -> (r: StrMap<Double>)
    ensures
        r@ == category_rates(now@, before@, dt),
{
    let ghost all = now@;
    let mut r: StrMap<Double> = StrMap::new();
    let mut i: usize = 0;
    proof {
        assert(all.take(0) =~= Seq::<(Seq<char>, u64)>::empty());
    }
    while i < now.len()
        invariant
            i <= all.len(),
            all == now@,
            behind(r@, all, i as int),
            r@ == category_rates(all.take(i as int), before@, dt),
        decreases all.len() - i,
    {
        proof {
            assert(keys_ordered(all));
            assert(all.take(i + 1).drop_last() =~= all.take(i as int));
            assert(all.take(i + 1).last() == all[i as int]);
        }
        let from: u64 = match before.get(now.key_at(i)) {
            Some(n) => *n,
            None => 0,
        };
        let to: u64 = *now.value_at(i);
        let rate = Double::from_u64(to.saturating_sub(from)).over(dt);
        if Double::zero().is_less(rate) {
            r.push_entry(copy(now.key_at(i)), rate);
        }
        i = i + 1;
    }
    proof {
        assert(all.take(i as int) =~= all);
    }
    r
}

fn mean_of(ms: u64, requests: u64) -> (r: Double)
    ensures
        r == mean_time(ms, requests),
{
    if requests > 0 {
        Double::from_u64(ms).over(Double::from_u64(requests))
    } else {
        Double::zero()
    }
}

fn device_rate(before: &Vec<DeviceInfo>, d: &DeviceInfo, dt: Double) -> (r: DeviceRate)
    ensures
        r@ == rate_of(views(before@), d@, dt),
{
    let found = find_counterpart(before, d);
    let (p, valid) = match found {
        Some(p) => (p, valid_diskstats_interval(p, d)),
        None => (d, false),
    };
    let read_delta: u64 = d.io_done_read.saturating_sub(p.io_done_read);
    let write_delta: u64 = d.io_done_write.saturating_sub(p.io_done_write);
    let (reads, writes, io_ms): (u64, u64, u64) = if valid {
        (
            d.diskstats_reads - p.diskstats_reads,
            d.diskstats_writes - p.diskstats_writes,
            d.diskstats_io_ms - p.diskstats_io_ms,
        )
    } else {
        (0, 0, 0)
    };
    let (read_ms, write_ms, weighted): (u64, u64, u64) = if valid {
        (
            d.diskstats_read_ms - p.diskstats_read_ms,
            d.diskstats_write_ms - p.diskstats_write_ms,
            d.diskstats_weighted_io_ms - p.diskstats_weighted_io_ms,
        )
    } else {
        (0, 0, 0)
    };
    let ms = dt.times(Double::from_u64(1000));
    DeviceRate {
        name: copy(d.name.as_str()),
        label: opt_copy(&d.label),
        member_key: d.identity(),
        sample_seconds: dt,
        read_bytes_sec: Double::from_u64(read_delta).over(dt),
        write_bytes_sec: Double::from_u64(write_delta).over(dt),
        read_by_type: diff_map(&d.io_read_by_type, &p.io_read_by_type, dt),
        write_by_type: diff_map(&d.io_write_by_type, &p.io_write_by_type, dt),
        read_latency_ns: d.io_latency_read_ns,
        write_latency_ns: d.io_latency_write_ns,
        read_active: read_delta > 0,
        write_active: write_delta > 0,
        read_completed: reads,
        write_completed: writes,
        read_iops: Double::from_u64(reads).over(dt),
        write_iops: Double::from_u64(writes).over(dt),
        util_pct: Double::from_u64(io_ms).over(ms).times(Double::from_u64(100)).min(
            Double::from_u64(100),
        ),
        queue_depth: if d.diskstats_valid {
            d.diskstats_in_flight
        } else {
            0
        },
        avg_queue_depth: if valid {
            Double::from_u64(weighted).over(ms)
        } else {
            Double::zero()
        },
        read_await_ms: mean_of(read_ms, reads),
        write_await_ms: mean_of(write_ms, writes),
        diskstats_interval_valid: valid,
        io_errors: d.io_errors,
    }
}

/// The rates between two snapshots that were taken `dt` seconds apart.
pub fn compute_rates(prev: &FsSnapshot, curr: &FsSnapshot, dt: Double) -> (r: Rates)
    ensures
        r@ == rates_between(prev@.devices, curr@.devices, dt),
{
    let mut devices: Vec<DeviceRate> = Vec::new();
    if dt.is_at_most(Double::zero()) {
        let r = Rates { devices };
        assert(r@ =~= rates_between(prev@.devices, curr@.devices, dt));
        return r;
    }
    let mut i: usize = 0;
    while i < curr.devices.len()
        invariant
            i <= curr.devices@.len(),
            devices@.len() == i,
            forall|k: int|
                0 <= k < i ==> (#[trigger] devices@[k])@ == rate_of(
                    prev@.devices,
                    curr.devices@[k]@,
                    dt,
                ),
        decreases curr.devices@.len() - i,
    {
        devices.push(device_rate(&prev.devices, &curr.devices[i], dt));
        i = i + 1;
    }
    let r = Rates { devices };
    assert(r@.devices =~= rates_between(prev@.devices, curr@.devices, dt).devices);
    r
}

// --------------------------------------------------------------------- history

/// A ring of recent values for every metric, the newest last.
#[derive(Debug)]
pub struct History {
    pub series: StrMap<Vec<Double>>,
    pub capacity: usize,
}

#[verifier::ext_equal]
pub struct HistoryView {
    pub series: Seq<(Seq<char>, Seq<Double>)>,
    pub capacity: usize,
}

impl View for History {
    type V = HistoryView;

    open spec fn view(&self) -> HistoryView {
        HistoryView { series: self.series@, capacity: self.capacity }
    }
}

pub open spec fn series_of(h: HistoryView, key: Seq<char>) -> Seq<Double> {
    match find(h.series, key) {
        Some(values) => values,
        None => Seq::empty(),
    }
}

/// A ring with one value more; a full one loses its oldest.
pub open spec fn ringed(values: Seq<Double>, capacity: usize, value: Double) -> Seq<Double> {
    if values.len() >= capacity {
        values.skip(1).push(value)
    } else {
        values.push(value)
    }
}

pub open spec fn with_value(h: HistoryView, key: Seq<char>, value: Double) -> HistoryView {
    HistoryView {
        series: put(h.series, key, ringed(series_of(h, key), h.capacity, value)),
        ..h
    }
}

impl History {
    pub fn new(capacity: usize) -> (r: History)
        ensures
            r@ == (HistoryView { series: Seq::empty(), capacity }),
    {
        History { series: StrMap::new(), capacity }
    }

    pub fn push(&mut self, key: &str, value: Double)
        requires
            old(self).capacity > 0,
        ensures
            final(self)@ == with_value(old(self)@, key@, value),
    {
        let mut values = self.get(key);
        if values.len() >= self.capacity {
            let ghost before = values@;
            values.remove(0);
            assert(values@ =~= before.skip(1));
        }
        values.push(value);
        self.series.insert(key, values);
    }

    /// The values of a metric, the newest last.
    pub fn get(&self, key: &str) -> (r: Vec<Double>)
        ensures
            r@ == series_of(self@, key@),
    {
        let mut r: Vec<Double> = Vec::new();
        if let Some(values) = self.series.get(key) {
            let mut i: usize = 0;
            while i < values.len()
                invariant
                    i <= values@.len(),
                    r@ =~= values@.take(i as int),
                decreases values@.len() - i,
            {
                r.push(values[i]);
                i = i + 1;
            }
            assert(r@ =~= values@);
        }
        r
    }
}

/// No series grows beyond the capacity, however long values are added.
pub proof fn law_history_is_bounded(h: HistoryView, key: Seq<char>, value: Double, other: Seq<char>)
    requires
        h.capacity > 0,
        series_of(h, key).len() <= h.capacity,
        series_of(h, other).len() <= h.capacity,
    ensures
        series_of(with_value(h, key, value), key).len() <= h.capacity,
        series_of(with_value(h, key, value), key).last() == value,
        series_of(with_value(h, key, value), other).len() <= h.capacity,
        other != key ==> series_of(with_value(h, key, value), other) == series_of(h, other),
{
    crate::strmap::law_put_then_find(
        h.series,
        key,
        ringed(series_of(h, key), h.capacity, value),
        other,
    );
}

// ------------------------------------------------------------------- processes

/// The last sample of a process.
pub open spec fn sample_of(samples: Seq<ProcessIoView>, pid: u32) -> Option<ProcessIoView>
    decreases samples.len(),
{
    if samples.len() == 0 {
        None
    } else if samples.last().pid == pid {
        Some(samples.last())
    } else {
        sample_of(samples.drop_last(), pid)
    }
}

pub open spec fn has_process(samples: Seq<ProcessIoView>, pid: u32) -> bool {
    sample_of(samples, pid) is Some
}

pub open spec fn has_rate(rates: Seq<ProcessRateView>, pid: u32) -> bool {
    exists|i: int| 0 <= i < rates.len() && (#[trigger] rates[i]).pid == pid
}

/// The rates with one set: in the place of its process, or at the end.
pub open spec fn with_rate(rates: Seq<ProcessRateView>, r: ProcessRateView) -> Seq<ProcessRateView>
    decreases rates.len(),
{
    if rates.len() == 0 {
        seq![r]
    } else if rates.last().pid == r.pid {
        rates.drop_last().push(r)
    } else if has_rate(rates, r.pid) {
        with_rate(rates.drop_last(), r).push(rates.last())
    } else {
        rates.push(r)
    }
}

/// The rates of the processes that were there before.
pub open spec fn current_rates(
    before: Seq<ProcessIoView>,
    now: Seq<ProcessIoView>,
    dt: Double,
) -> Seq<ProcessRateView>
    decreases now.len(),
{
    if now.len() == 0 {
        Seq::empty()
    } else {
        let rest = current_rates(before, now.drop_last(), dt);
        let c = now.last();
        match sample_of(before, c.pid) {
            Some(p) => with_rate(
                rest,
                ProcessRateView {
                    pid: c.pid,
                    name: c.name,
                    read_bytes_sec: per_second(rise(p.read_bytes, c.read_bytes), dt),
                    write_bytes_sec: per_second(rise(p.write_bytes, c.write_bytes), dt),
                    total_read: c.read_bytes,
                    total_write: c.write_bytes,
                },
            ),
            None => rest,
        }
    }
}

/// The rates with those carried forward, at zero, of processes that still
/// exist and have no rate of their own.
pub open spec fn carried(
    rates: Seq<ProcessRateView>,
    earlier: Seq<ProcessRateView>,
    now: Seq<ProcessIoView>,
) -> Seq<ProcessRateView>
    decreases earlier.len(),
{
    if earlier.len() == 0 {
        rates
    } else {
        let rest = carried(rates, earlier.drop_last(), now);
        let e = earlier.last();
        if has_process(now, e.pid) && !has_rate(rest, e.pid) {
            rest.push(ProcessRateView { read_bytes_sec: zero(), write_bytes_sec: zero(), ..e })
        } else {
            rest
        }
    }
}

impl ProcessRateView {
    pub open spec fn both(self) -> Double {
        sum(self.read_bytes_sec, self.write_bytes_sec)
    }
}

/// Busy processes first, by their rate; idle ones by name.
pub struct ByLoad;

impl Rule<ProcessRate> for ByLoad {
    open spec fn before(a: ProcessRateView, b: ProcessRateView) -> bool {
        if alike(a.both(), zero()) && alike(b.both(), zero()) {
            text_before(a.name, b.name)
        } else {
            b.both().less(a.both())
        }
    }

    fn precedes(a: &ProcessRate, b: &ProcessRate) -> (r: bool) {
        let ta = a.read_bytes_sec.plus(a.write_bytes_sec);
        let tb = b.read_bytes_sec.plus(b.write_bytes_sec);
        if are_alike(ta, Double::zero()) && are_alike(tb, Double::zero()) {
            precedes_text(a.name.as_str(), b.name.as_str())
        } else {
            tb.is_less(ta)
        }
    }
}

/// The first of a list, up to a number.
pub open spec fn first_of<T>(s: Seq<T>, n: nat) -> Seq<T> {
    if s.len() <= n {
        s
    } else {
        s.take(n as int)
    }
}

/// The rates of the busiest processes. One seen before stays with zero rates
/// while it exists. Over no time the rates stay as they were.
pub open spec fn process_rates(
    before: Seq<ProcessIoView>,
    now: Seq<ProcessIoView>,
    dt: Double,
    top: usize,
    earlier: Seq<ProcessRateView>,
) -> Seq<ProcessRateView> {
    if dt.at_most(zero()) {
        earlier
    } else {
        first_of(
            arranged::<ProcessRate, ByLoad>(
                carried(current_rates(before, now, dt), earlier, now),
            ),
            top as nat,
        )
    }
}

fn find_sample<'a>(samples: &'a Vec<ProcessIo>, pid: u32) -> (r: Option<&'a ProcessIo>)
    ensures
        match r {
            Some(p) => sample_of(views(samples@), pid) == Some(p@),
            None => sample_of(views(samples@), pid) is None,
        },
{
    let ghost all = views(samples@);
    let mut n: usize = samples.len();
    proof {
        assert(all.take(n as int) =~= all);
    }
    while n > 0
        invariant
            n <= samples@.len() == all.len(),
            all == views(samples@),
            sample_of(all, pid) == sample_of(all.take(n as int), pid),
        decreases n,
    {
        proof {
            assert(all.take(n as int).drop_last() =~= all.take(n - 1));
            assert(all.take(n as int).last() == samples@[n - 1]@);
        }
        if samples[n - 1].pid == pid {
            return Some(&samples[n - 1]);
        }
        n = n - 1;
    }
    None
}

/// The last place of a process among rates, or their number.
fn place_of(rates: &Vec<ProcessRate>, pid: u32) -> (r: usize)
    ensures
        r <= rates@.len(),
        r < rates@.len() ==> rates@[r as int].pid == pid && forall|k: int|
            r < k < rates@.len() ==> (#[trigger] rates@[k]).pid != pid,
        r == rates@.len() <==> !has_rate(views(rates@), pid),
{
    let mut n: usize = rates.len();
    while n > 0
        invariant
            n <= rates@.len(),
            forall|k: int| n <= k < rates@.len() ==> (#[trigger] rates@[k]).pid != pid,
        decreases n,
    {
        if rates[n - 1].pid == pid {
            proof {
                assert(views(rates@)[n - 1].pid == pid);
            }
            return n - 1;
        }
        n = n - 1;
    }
    proof {
        assert forall|i: int| 0 <= i < views(rates@).len() implies (#[trigger] views(
            rates@,
        )[i]).pid != pid by {
            assert(views(rates@)[i] == rates@[i]@);
        }
    }
    rates.len()
}

proof fn lemma_with_rate(rates: Seq<ProcessRateView>, r: ProcessRateView, k: int)
    requires
        0 <= k <= rates.len(),
        k < rates.len() ==> rates[k].pid == r.pid,
        forall|i: int| k < i < rates.len() ==> (#[trigger] rates[i]).pid != r.pid,
        k == rates.len() ==> !has_rate(rates, r.pid),
    ensures
        with_rate(rates, r) == if k < rates.len() {
            rates.update(k, r)
        } else {
            rates.push(r)
        },
    decreases rates.len(),
{
    if rates.len() == 0 {
        assert(seq![r] =~= rates.push(r));
    } else if k == rates.len() {
        assert(rates[rates.len() - 1].pid != r.pid) by {
            if rates[rates.len() - 1].pid == r.pid {
                assert(has_rate(rates, r.pid));
            }
        }
    } else if k == rates.len() - 1 {
        assert(rates.drop_last().push(r) =~= rates.update(k, r));
    } else {
        assert(rates[rates.len() - 1].pid != r.pid);
        assert(has_rate(rates, r.pid)) by {
            assert(rates[k].pid == r.pid);
        }
        let rest = rates.drop_last();
        assert forall|i: int| k < i < rest.len() implies (#[trigger] rest[i]).pid != r.pid by {
            assert(rest[i] == rates[i]);
        }
        lemma_with_rate(rest, r, k);
        assert(rest.update(k, r).push(rates.last()) =~= rates.update(k, r));
    }
}

fn set_rate(rates: &mut Vec<ProcessRate>, r: ProcessRate)
    ensures
        views(final(rates)@) == with_rate(views(old(rates)@), r@),
{
    broadcast use lemma_views_push;

    let ghost all = views(rates@);
    let ghost rv = r@;
    let k = place_of(rates, r.pid);
    proof {
        assert forall|i: int| k < i < all.len() implies (#[trigger] all[i]).pid != rv.pid by {
            assert(all[i] == rates@[i]@);
        }
        lemma_with_rate(all, rv, k as int);
    }
    if k < rates.len() {
        rates.set(k, r);
        assert(views(rates@) =~= all.update(k as int, rv));
    } else {
        rates.push(r);
    }
}

fn rates_now(before: &Vec<ProcessIo>, now: &Vec<ProcessIo>, dt: Double) -> (r: Vec<ProcessRate>)
    ensures
        views(r@) == current_rates(views(before@), views(now@), dt),
{
    let ghost all = views(now@);
    let mut r: Vec<ProcessRate> = Vec::new();
    let mut i: usize = 0;
    proof {
        assert(all.take(0) =~= Seq::<ProcessIoView>::empty());
        assert(views(r@) =~= Seq::<ProcessRateView>::empty());
    }
    while i < now.len()
        invariant
            i <= now@.len() == all.len(),
            all == views(now@),
            views(r@) == current_rates(views(before@), all.take(i as int), dt),
        decreases all.len() - i,
    {
        let c = &now[i];
        proof {
            assert(all.take(i + 1).drop_last() =~= all.take(i as int));
            assert(all.take(i + 1).last() == c@);
        }
        if let Some(p) = find_sample(before, c.pid) {
            set_rate(
                &mut r,
                ProcessRate {
                    pid: c.pid,
                    name: copy(c.name.as_str()),
                    read_bytes_sec: Double::from_u64(c.read_bytes.saturating_sub(p.read_bytes)).over(
                        dt,
                    ),
                    write_bytes_sec: Double::from_u64(
                        c.write_bytes.saturating_sub(p.write_bytes),
                    ).over(dt),
                    total_read: c.read_bytes,
                    total_write: c.write_bytes,
                },
            );
        }
        i = i + 1;
    }
    proof {
        assert(all.take(i as int) =~= all);
    }
    r
}

fn carry_forward(rates: &mut Vec<ProcessRate>, earlier: &Vec<ProcessRate>, now: &Vec<ProcessIo>)
    ensures
        views(final(rates)@) == carried(views(old(rates)@), views(earlier@), views(now@)),
{
    broadcast use lemma_views_push;

    let ghost all = views(earlier@);
    let ghost start = views(rates@);
    let mut i: usize = 0;
    proof {
        assert(all.take(0) =~= Seq::<ProcessRateView>::empty());
    }
    while i < earlier.len()
        invariant
            i <= earlier@.len() == all.len(),
            all == views(earlier@),
            views(rates@) == carried(start, all.take(i as int), views(now@)),
        decreases all.len() - i,
    {
        let e = &earlier[i];
        proof {
            assert(all.take(i + 1).drop_last() =~= all.take(i as int));
            assert(all.take(i + 1).last() == e@);
        }
        let alive = find_sample(now, e.pid).is_some();
        let k = place_of(rates, e.pid);
        if alive && k == rates.len() {
            let mut r = e.duplicate();
            r.read_bytes_sec = Double::zero();
            r.write_bytes_sec = Double::zero();
            rates.push(r);
        }
        i = i + 1;
    }
    proof {
        assert(all.take(i as int) =~= all);
    }
}

/// The rates of the processes with the most I/O.
pub fn compute_process_rates(
    prev: &Vec<ProcessIo>,
    curr: &Vec<ProcessIo>,
    dt: Double,
    top_n: usize,
    previous_rates: &Vec<ProcessRate>,
) -> (r: Vec<ProcessRate>)
    ensures
        views(r@) == process_rates(
            views(prev@),
            views(curr@),
            dt,
            top_n,
            views(previous_rates@),
        ),
{
    if dt.is_at_most(Double::zero()) {
        return dup_vec(previous_rates);
    }
    let mut rates = rates_now(prev, curr, dt);
    carry_forward(&mut rates, previous_rates, curr);
    let mut sorted = sort::<ProcessRate, ByLoad>(rates);
    let ghost full = views(sorted@);
    if sorted.len() > top_n {
        sorted.truncate(top_n);
        assert(views(sorted@) =~= full.take(top_n as int));
    }
    sorted
}

// ------------------------------------------------------------------------ laws

/// A device is never busier than all of the time.
pub proof fn law_busy_share_is_a_share(ms: u64, dt: Double)
    ensures
        busy_share(ms, dt).at_most(whole(100)),
{
    crate::double::law_whole_numbers_are_ordered(100, 100);
}

/// A device that is new, or whose counters fell, has no rates from the block
/// layer.
pub proof fn law_no_interval_no_rates(before: Seq<DeviceInfoView>, d: DeviceInfoView, dt: Double)
    requires
        match counterpart(before, d) {
            Some(p) => !valid_interval(p, d),
            None => true,
        },
    ensures
        ({
            let r = rate_of(before, d, dt);
            &&& !r.diskstats_interval_valid
            &&& r.read_completed == 0 && r.write_completed == 0
            &&& r.read_iops == per_second(0, dt) && r.write_iops == per_second(0, dt)
            &&& r.read_await_ms == zero() && r.write_await_ms == zero()
            &&& r.avg_queue_depth == zero()
        }),
{
}

/// A device that was not in the earlier snapshot moved no bytes.
pub proof fn law_new_devices_start_at_rest(before: Seq<DeviceInfoView>, d: DeviceInfoView, dt: Double)
    requires
        counterpart(before, d) is None,
    ensures
        !rate_of(before, d, dt).read_active,
        !rate_of(before, d, dt).write_active,
        rate_of(before, d, dt).read_bytes_sec == per_second(0, dt),
        rate_of(before, d, dt).write_bytes_sec == per_second(0, dt),
{
}

/// A counter that fell is no spike: nothing is said to have moved.
pub proof fn law_a_fallen_counter_is_no_spike(
    before: Seq<DeviceInfoView>,
    d: DeviceInfoView,
    dt: Double,
)
    requires
        counterpart(before, d) is Some,
    ensures
        d.io_done_read <= (counterpart(before, d)->0).io_done_read ==> rate_of(
            before,
            d,
            dt,
        ).read_bytes_sec == per_second(0, dt) && !rate_of(before, d, dt).read_active,
        d.io_done_write <= (counterpart(before, d)->0).io_done_write ==> rate_of(
            before,
            d,
            dt,
        ).write_bytes_sec == per_second(0, dt) && !rate_of(before, d, dt).write_active,
{
}

/// No more processes are listed than asked for, and over no time none changes.
pub proof fn law_processes_are_bounded(
    before: Seq<ProcessIoView>,
    now: Seq<ProcessIoView>,
    dt: Double,
    top: usize,
    earlier: Seq<ProcessRateView>,
)
    ensures
        !dt.at_most(zero()) || earlier.len() <= top ==> process_rates(
            before,
            now,
            dt,
            top,
            earlier,
        ).len() <= top,
        dt.at_most(zero()) ==> process_rates(before, now, dt, top, earlier) == earlier,
{
}

} // verus!
