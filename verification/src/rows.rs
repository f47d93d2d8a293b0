//! The tables and lines of the interface, as texts and tones.

use crate::app::{App, AppView, Focus, StallEvent, StallEventView, TimeStatModel, TimeStatView};
use crate::double::{quotient, sum, whole, zero, Double};
use crate::formats::{
    format_bytes, format_bytes_short, format_gib, format_latency, format_operation,
    format_some_bytes, gib_text, latency_text, operation_text, percent, rate_text, share_pct,
    short_text, some_bytes,
};
use crate::metrics::{
    device_pressure_medians, first_of, pressure_medians, DeviceRate, DeviceRateView, ProcessRate,
    ProcessRateView,
};
use crate::numeral::{fixed, fixed_text};
use crate::order::{arranged, law_arranged_keeps_all, sort, Rule};
use crate::strmap::{find, StrMap};
use crate::sysfs::Instant;
use crate::targets::{TargetReport, TargetReportView};
use crate::text::{
    cat2, cat3, cat4, cat5, cat8, contains, copy, count, decimal, has_part, has_prefix, item, opt,
    starts_with, u64_text, usize_text, views,
};
use crate::theme::{latency_color, latency_tone, Tone};
use crate::window::{capped_sum, since, time_since};
use vstd::prelude::*;

verus! {

// --------------------------------------------------------------------- header

/// The line at the top.
#[derive(Debug)]
pub struct Header {
    pub name: String,
    pub space: String,
    pub share: String,
    pub used_pct: Double,
    pub rest: String,
}

#[verifier::ext_equal]
pub struct HeaderView {
    pub name: Seq<char>,
    pub space: Seq<char>,
    pub share: Seq<char>,
    pub used_pct: Double,
    pub rest: Seq<char>,
}

impl View for Header {
    type V = HeaderView;

    open spec fn view(&self) -> HeaderView {
        HeaderView {
            name: self.name@,
            space: self.space@,
            share: self.share@,
            used_pct: self.used_pct,
            rest: self.rest@,
        }
    }
}

pub open spec fn option_or(options: Seq<(Seq<char>, Seq<char>)>, name: Seq<char>, other: Seq<char>) -> Seq<char> {
    match find(options, name) {
        Some(v) => v,
        None => other,
    }
}

fn get_option(options: &StrMap<String>, name: &str, other: &str) -> (r: String)
    ensures
        r@ == option_or(options@, name@, other@),
{
    match options.get(name) {
        Some(v) => copy(v.as_str()),
        None => copy(other),
    }
}

/// Which of several filesystems is shown.
pub open spec fn place_text(index: usize, n: nat) -> Seq<char> {
    if n > 1 {
        " ["@ + decimal((index + 1) as nat) + "/"@ + decimal(n) + "]"@
    } else {
        ""@
    }
}

pub open spec fn header_of(app: AppView) -> HeaderView {
    let pct = percent(app.current.space_used, app.current.space_total);
    HeaderView {
        name: app.fs.fs_name + " ("@ + app.fs.mount_point + ")"@,
        space: gib_text(app.current.space_used) + "/"@ + gib_text(app.current.space_total)
            + " GiB "@,
        share: "("@ + fixed(pct, 1) + "%)"@,
        used_pct: pct,
        rest: option_or(app.current.options, "data_replicas"@, "?"@) + "x "@ + option_or(
            app.current.options,
            "compression"@,
            "none"@,
        ) + place_text(app.fs_index, app.all_fs.len()) + " "@,
    }
}

fn make_place(index: usize, n: usize) -> (r: String)
    requires
        index < n,
    ensures
        r@ == place_text(index, n as nat),
{
    if n > 1 {
        cat5(" [", usize_text(index + 1).as_str(), "/", usize_text(n).as_str(), "]")
    } else {
        copy("")
    }
}

pub fn header(app: &App) -> (r: Header)
    requires
        app.fs_index < app.all_fs@.len(),
    ensures
        r@ == header_of(app@),
{
    let snap = &app.current;
    let pct = share_pct(snap.space_used, snap.space_total);
    let place = make_place(app.fs_index, count(&app.all_fs));
    Header {
        name: cat4(app.fs.fs_name.as_str(), " (", app.fs.mount_point.as_str(), ")"),
        space: cat4(
            format_gib(snap.space_used).as_str(),
            "/",
            format_gib(snap.space_total).as_str(),
            " GiB ",
        ),
        share: cat3("(", fixed_text(pct, 1).as_str(), "%)"),
        used_pct: pct,
        rest: cat5(
            get_option(&snap.options, "data_replicas", "?").as_str(),
            "x ",
            get_option(&snap.options, "compression", "none").as_str(),
            place.as_str(),
            " ",
        ),
    }
}

// -------------------------------------------------------------------- devices

/// What a device reads or writes: by category, in all, and how fast.
#[derive(Debug)]
pub struct Lane {
    /// user, btree, journal, sb, total
    pub cells: Vec<String>,
    pub latency: String,
    pub tone: Tone,
}

#[verifier::ext_equal]
pub struct LaneView {
    pub cells: Seq<Seq<char>>,
    pub latency: Seq<char>,
    pub tone: Tone,
}

impl View for Lane {
    type V = LaneView;

    open spec fn view(&self) -> LaneView {
        LaneView {
            cells: views(self.cells@),
            latency: self.latency@,
            tone: self.tone,
        }
    }
}

/// One device of the table.
#[derive(Debug)]
pub struct DeviceRow {
    pub name: String,
    pub label: String,
    pub errors: u64,
    pub error_tone: Tone,
    pub util: String,
    pub util_tone: Tone,
    pub read: Lane,
    pub write: Lane,
    pub queue: String,
    pub iops: String,
    pub awaits: String,
    /// Whether it stands out from the other devices.
    pub pressured: bool,
}

#[verifier::ext_equal]
pub struct DeviceRowView {
    pub name: Seq<char>,
    pub label: Seq<char>,
    pub errors: u64,
    pub error_tone: Tone,
    pub util: Seq<char>,
    pub util_tone: Tone,
    pub read: LaneView,
    pub write: LaneView,
    pub queue: Seq<char>,
    pub iops: Seq<char>,
    pub awaits: Seq<char>,
    pub pressured: bool,
}

impl View for DeviceRow {
    type V = DeviceRowView;

    open spec fn view(&self) -> DeviceRowView {
        DeviceRowView {
            name: self.name@,
            label: self.label@,
            errors: self.errors,
            error_tone: self.error_tone,
            util: self.util@,
            util_tone: self.util_tone,
            read: self.read@,
            write: self.write@,
            queue: self.queue@,
            iops: self.iops@,
            awaits: self.awaits@,
            pressured: self.pressured,
        }
    }
}

/// The sums of the table.
#[derive(Debug)]
pub struct TotalRow {
    pub errors: u64,
    pub read: Vec<String>,
    pub write: Vec<String>,
}

#[verifier::ext_equal]
pub struct TotalRowView {
    pub errors: u64,
    pub read: Seq<Seq<char>>,
    pub write: Seq<Seq<char>>,
}

impl View for TotalRow {
    type V = TotalRowView;

    open spec fn view(&self) -> TotalRowView {
        TotalRowView {
            errors: self.errors,
            read: views(self.read@),
            write: views(self.write@),
        }
    }
}

pub open spec fn category(by_type: Seq<(Seq<char>, Double)>, name: Seq<char>) -> Double {
    match find(by_type, name) {
        Some(x) => x,
        None => zero(),
    }
}

fn get_category(by_type: &StrMap<Double>, name: &str) -> (r: Double)
    ensures
        r == category(by_type@, name@),
{
    match by_type.get(name) {
        Some(x) => *x,
        None => Double::zero(),
    }
}

/// Rates by category, and their total.
#[derive(Debug, Clone, Copy)]
pub struct Split {
    pub user: Double,
    pub btree: Double,
    pub journal: Double,
    pub superblock: Double,
    pub total: Double,
}

pub open spec fn split_of(by_type: Seq<(Seq<char>, Double)>, total: Double) -> Split {
    Split {
        user: category(by_type, "user"@),
        btree: category(by_type, "btree"@),
        journal: category(by_type, "journal"@),
        superblock: category(by_type, "sb"@),
        total,
    }
}

fn make_split(by_type: &StrMap<Double>, total: Double) -> (r: Split)
    ensures
        r == split_of(by_type@, total),
{
    Split {
        user: get_category(by_type, "user"),
        btree: get_category(by_type, "btree"),
        journal: get_category(by_type, "journal"),
        superblock: get_category(by_type, "sb"),
        total,
    }
}

pub open spec fn no_split() -> Split {
    Split { user: zero(), btree: zero(), journal: zero(), superblock: zero(), total: zero() }
}

pub open spec fn split_sum(a: Split, b: Split) -> Split {
    Split {
        user: sum(a.user, b.user),
        btree: sum(a.btree, b.btree),
        journal: sum(a.journal, b.journal),
        superblock: sum(a.superblock, b.superblock),
        total: sum(a.total, b.total),
    }
}

fn add_split(a: Split, b: Split) -> (r: Split)
    ensures
        r == split_sum(a, b),
{
    Split {
        user: a.user.plus(b.user),
        btree: a.btree.plus(b.btree),
        journal: a.journal.plus(b.journal),
        superblock: a.superblock.plus(b.superblock),
        total: a.total.plus(b.total),
    }
}

/// The cells of a table; the total is written even where it is zero.
pub open spec fn split_cells(s: Split) -> Seq<Seq<char>> {
    seq![
        some_bytes(s.user),
        some_bytes(s.btree),
        some_bytes(s.journal),
        some_bytes(s.superblock),
        short_text(s.total),
    ]
}

fn make_cells(s: Split) -> (r: Vec<String>)
    ensures
        views(r@) == split_cells(s),
{
    let mut r: Vec<String> = Vec::new();
    r.push(format_some_bytes(s.user));
    r.push(format_some_bytes(s.btree));
    r.push(format_some_bytes(s.journal));
    r.push(format_some_bytes(s.superblock));
    r.push(format_bytes_short(s.total));
    assert(views(r@) =~= split_cells(s));
    r
}

/// A latency counts only while there is I/O; without any, its cell has the tone
/// of the row.
pub open spec fn lane_of(s: Split, active: bool, ns: u64, tone: Tone) -> LaneView {
    LaneView {
        cells: split_cells(s),
        latency: if active {
            latency_text(ns)
        } else {
            "—"@
        },
        tone: if active {
            latency_tone(ns)
        } else {
            tone
        },
    }
}

fn make_lane(s: Split, active: bool, ns: u64, tone: Tone) -> (r: Lane)
    ensures
        r@ == lane_of(s, active, ns, tone),
{
    Lane {
        cells: make_cells(s),
        latency: if active {
            format_latency(ns)
        } else {
            copy("—")
        },
        tone: if active {
            latency_color(ns)
        } else {
            tone
        },
    }
}

/// Errors that were there when the device was first seen are dimmed; only those
/// that came since are red.
pub open spec fn error_tone(errors: u64, initial: Option<u64>) -> Tone {
    if errors == 0 {
        Tone::Text
    } else {
        match initial {
            Some(n) => if errors > n {
                Tone::Red
            } else {
                Tone::Dim
            },
            None => Tone::Dim,
        }
    }
}

fn find_error_tone(errors: u64, initial: Option<u64>) -> (r: Tone)
    ensures
        r == error_tone(errors, initial),
{
    if errors == 0 {
        return Tone::Text;
    }
    match initial {
        Some(n) => if errors > n {
            Tone::Red
        } else {
            Tone::Dim
        },
        None => Tone::Dim,
    }
}

pub open spec fn util_tone(pct: Double) -> Tone {
    if whole(80).less(pct) {
        Tone::Red
    } else if whole(50).less(pct) {
        Tone::Yellow
    } else {
        Tone::Green
    }
}

fn find_util_tone(pct: Double) -> (r: Tone)
    ensures
        r == util_tone(pct),
{
    if Double::from_u64(80).is_less(pct) {
        Tone::Red
    } else if Double::from_u64(50).is_less(pct) {
        Tone::Yellow
    } else {
        Tone::Green
    }
}

pub open spec fn util_text(pct: Double) -> Seq<char> {
    if zero().less(pct) {
        fixed(pct, 0) + "%"@
    } else {
        "—"@
    }
}

fn make_util(pct: Double) -> (r: String)
    ensures
        r@ == util_text(pct),
{
    if Double::zero().is_less(pct) {
        cat2(fixed_text(pct, 0).as_str(), "%")
    } else {
        copy("—")
    }
}

pub open spec fn or_blank(s: Option<Seq<char>>) -> Seq<char> {
    match s {
        Some(t) => t,
        None => ""@,
    }
}

fn get_or_blank(s: &Option<String>) -> (r: String)
    ensures
        r@ == or_blank(opt(*s)),
{
    match s {
        Some(t) => copy(t.as_str()),
        None => copy(""),
    }
}

pub open spec fn device_row(
    d: DeviceRateView,
    initial: Seq<(Seq<char>, u64)>,
    medians: (Double, Double),
) -> DeviceRowView {
    DeviceRowView {
        name: d.name,
        label: or_blank(d.label),
        errors: d.io_errors,
        error_tone: error_tone(d.io_errors, find(initial, d.name)),
        util: util_text(d.util_pct),
        util_tone: util_tone(d.util_pct),
        read: lane_of(
            split_of(d.read_by_type, d.read_bytes_sec),
            d.read_active,
            d.read_latency_ns,
            Tone::Read,
        ),
        write: lane_of(
            split_of(d.write_by_type, d.write_bytes_sec),
            d.write_active,
            d.write_latency_ns,
            Tone::Write,
        ),
        queue: decimal(d.queue_depth as nat) + "/"@ + fixed(d.avg_queue_depth, 1),
        iops: fixed(d.iops(), 0),
        awaits: fixed(d.read_await_ms, 1) + "/"@ + fixed(d.write_await_ms, 1),
        pressured: d.under_pressure(medians.0, medians.1),
    }
}

fn make_device_row(d: &DeviceRate, initial: &StrMap<u64>, medians: (Double, Double)) -> (r: DeviceRow)
    ensures
        r@ == device_row(d@, initial@, medians),
{
    let first = match initial.get(d.name.as_str()) {
        Some(n) => Some(*n),
        None => None,
    };
    DeviceRow {
        name: copy(d.name.as_str()),
        label: get_or_blank(&d.label),
        errors: d.io_errors,
        error_tone: find_error_tone(d.io_errors, first),
        util: make_util(d.util_pct),
        util_tone: find_util_tone(d.util_pct),
        read: make_lane(
            make_split(&d.read_by_type, d.read_bytes_sec),
            d.read_active,
            d.read_latency_ns,
            Tone::Read,
        ),
        write: make_lane(
            make_split(&d.write_by_type, d.write_bytes_sec),
            d.write_active,
            d.write_latency_ns,
            Tone::Write,
        ),
        queue: cat3(
            u64_text(d.queue_depth).as_str(),
            "/",
            fixed_text(d.avg_queue_depth, 1).as_str(),
        ),
        iops: fixed_text(d.total_iops(), 0),
        awaits: cat3(
            fixed_text(d.read_await_ms, 1).as_str(),
            "/",
            fixed_text(d.write_await_ms, 1).as_str(),
        ),
        pressured: d.pressure_outlier(medians.0, medians.1),
    }
}

/// Devices by pressure, the worst first.
pub struct ByPressure;

impl Rule<(usize, Double)> for ByPressure {
    open spec fn before(a: (usize, Double), b: (usize, Double)) -> bool {
        b.1.less(a.1)
    }

    fn precedes(a: &(usize, Double), b: &(usize, Double)) -> (r: bool) {
        b.1.is_less(a.1)
    }
}

pub open spec fn scores(devices: Seq<DeviceRateView>) -> Seq<(usize, Double)> {
    let medians = pressure_medians(devices);
    Seq::new(devices.len(), |i: int| (i as usize, devices[i].score(medians.0, medians.1)))
}

/// The order in which devices are listed: as they stand, or by pressure.
pub open spec fn listing(devices: Seq<DeviceRateView>, by_pressure: bool) -> Seq<(usize, Double)> {
    if by_pressure {
        arranged::<(usize, Double), ByPressure>(scores(devices))
    } else {
        scores(devices)
    }
}

pub open spec fn device_rows(
    devices: Seq<DeviceRateView>,
    by_pressure: bool,
    initial: Seq<(Seq<char>, u64)>,
) -> Seq<DeviceRowView> {
    let order = listing(devices, by_pressure);
    let medians = pressure_medians(devices);
    Seq::new(order.len(), |i: int| device_row(devices[order[i].0 as int], initial, medians))
}

fn list_devices(devices: &Vec<DeviceRate>, by_pressure: bool) -> (r: Vec<(usize, Double)>)
    ensures
        views(r@) == listing(views(devices@), by_pressure),
{
    let medians = device_pressure_medians(devices);
    let mut v: Vec<(usize, Double)> = Vec::new();
    let mut i: usize = 0;
    while i < devices.len()
        invariant
            i <= devices@.len(),
            v@.len() == i,
            medians == pressure_medians(views(devices@)),
            forall|k: int|
                0 <= k < i ==> (#[trigger] v@[k])@ == (
                    k as usize,
                    views(devices@)[k].score(medians.0, medians.1),
                ),
        decreases devices@.len() - i,
    {
        v.push((i, devices[i].pressure_score(medians.0, medians.1)));
        i = i + 1;
    }
    assert(views(v@) =~= scores(views(devices@)));
    if by_pressure {
        sort::<(usize, Double), ByPressure>(v)
    } else {
        v
    }
}

/// Every place of a listing is a device.
proof fn lemma_listing(devices: Seq<DeviceRateView>, by_pressure: bool)
    requires
        devices.len() <= usize::MAX,
    ensures
        listing(devices, by_pressure).len() == devices.len(),
        forall|i: int|
            0 <= i < devices.len() ==> (#[trigger] listing(devices, by_pressure)[i]).0
                < devices.len(),
{
    broadcast use vstd::seq_lib::group_to_multiset_ensures;

    let all = scores(devices);
    let order = listing(devices, by_pressure);
    law_arranged_keeps_all::<(usize, Double), ByPressure>(all);
    assert forall|i: int| 0 <= i < devices.len() implies (#[trigger] order[i]).0 < devices.len() by {
        assert(order.contains(order[i]));
        assert(order.to_multiset().count(order[i]) > 0);
        assert(all.to_multiset().count(order[i]) > 0);
        assert(all.contains(order[i]));
        let k = choose|k: int| 0 <= k < all.len() && all[k] == order[i];
        assert(all[k].0 == k);
    }
}

/// The rows of the device table.
pub fn list_device_rows(devices: &Vec<DeviceRate>, by_pressure: bool, initial: &StrMap<u64>) -> (r:
    Vec<DeviceRow>)
    ensures
        views(r@) == device_rows(views(devices@), by_pressure, initial@),
        r@.len() == devices@.len(),
{
    let n = count(devices);
    let order = list_devices(devices, by_pressure);
    let medians = device_pressure_medians(devices);
    let ghost places = listing(views(devices@), by_pressure);
    let mut r: Vec<DeviceRow> = Vec::new();
    let mut i: usize = 0;
    proof {
        lemma_listing(views(devices@), by_pressure);
        assert(views(order@).len() == order@.len());
    }
    while i < n
        invariant
            i <= n,
            n == order@.len() == places.len(),
            r@.len() == i,
            places == views(order@),
            places.len() == devices@.len(),
            medians == pressure_medians(views(devices@)),
            forall|k: int|
                0 <= k < places.len() ==> (#[trigger] places[k]).0 < devices@.len(),
            forall|k: int|
                0 <= k < i ==> (#[trigger] r@[k])@ == device_row(
                    views(devices@)[places[k].0 as int],
                    initial@,
                    medians,
                ),
        decreases n - i,
    {
        let at = order[i].0;
        assert(places[i as int] == order@[i as int]@);
        r.push(make_device_row(&devices[at], initial, medians));
        i = i + 1;
    }
    assert(views(r@) =~= device_rows(views(devices@), by_pressure, initial@));
    r
}

/// Sums over the devices: errors, reads and writes.
pub open spec fn device_sums(devices: Seq<DeviceRateView>) -> (u64, Split, Split)
    decreases devices.len(),
{
    if devices.len() == 0 {
        (0, no_split(), no_split())
    } else {
        let (errors, read, written) = device_sums(devices.drop_last());
        let d = devices.last();
        (
            capped_sum(errors, d.io_errors),
            split_sum(read, split_of(d.read_by_type, d.read_bytes_sec)),
            split_sum(written, split_of(d.write_by_type, d.write_bytes_sec)),
        )
    }
}

pub open spec fn total_row(devices: Seq<DeviceRateView>) -> TotalRowView {
    let (errors, read, written) = device_sums(devices);
    TotalRowView { errors, read: split_cells(read), write: split_cells(written) }
}

/// The row of sums.
pub fn total_device_row(devices: &Vec<DeviceRate>) -> (r: TotalRow)
    ensures
        r@ == total_row(views(devices@)),
{
    let ghost all = views(devices@);
    let none = Split {
        user: Double::zero(),
        btree: Double::zero(),
        journal: Double::zero(),
        superblock: Double::zero(),
        total: Double::zero(),
    };
    let mut errors: u64 = 0;
    let mut read = none;
    let mut written = none;
    let mut i: usize = 0;
    proof {
        assert(all.take(0) =~= Seq::<DeviceRateView>::empty());
    }
    while i < devices.len()
        invariant
            i <= all.len(),
            all == views(devices@),
            (errors, read, written) == device_sums(all.take(i as int)),
        decreases all.len() - i,
    {
        proof {
            assert(all.take(i + 1).drop_last() =~= all.take(i as int));
            assert(all.take(i + 1).last() == devices@[i as int]@);
        }
        let d = &devices[i];
        errors = errors.saturating_add(d.io_errors);
        read = add_split(read, make_split(&d.read_by_type, d.read_bytes_sec));
        written = add_split(written, make_split(&d.write_by_type, d.write_bytes_sec));
        i = i + 1;
    }
    proof {
        assert(all.take(i as int) =~= all);
    }
    TotalRow { errors, read: make_cells(read), write: make_cells(written) }
}

// ------------------------------------------------------------ counters, stats

#[derive(Debug)]
pub struct CounterRow {
    pub name: String,
    pub delta: String,
    pub per_second: String,
    pub total: String,
    pub active: bool,
}

#[verifier::ext_equal]
pub struct CounterRowView {
    pub name: Seq<char>,
    pub delta: Seq<char>,
    pub per_second: Seq<char>,
    pub total: Seq<char>,
    pub active: bool,
}

impl View for CounterRow {
    type V = CounterRowView;

    open spec fn view(&self) -> CounterRowView {
        CounterRowView {
            name: self.name@,
            delta: self.delta@,
            per_second: self.per_second@,
            total: self.total@,
            active: self.active,
        }
    }
}

#[derive(Debug)]
pub struct StatRow {
    pub name: String,
    pub delta: String,
    pub total: String,
    pub mean: String,
    pub recent: String,
    pub max: String,
    pub tone: Tone,
}

#[verifier::ext_equal]
pub struct StatRowView {
    pub name: Seq<char>,
    pub delta: Seq<char>,
    pub total: Seq<char>,
    pub mean: Seq<char>,
    pub recent: Seq<char>,
    pub max: Seq<char>,
    pub tone: Tone,
}

impl View for StatRow {
    type V = StatRowView;

    open spec fn view(&self) -> StatRowView {
        StatRowView {
            name: self.name@,
            delta: self.delta@,
            total: self.total@,
            mean: self.mean@,
            recent: self.recent@,
            max: self.max@,
            tone: self.tone,
        }
    }
}

#[derive(Debug)]
pub struct ProcessRow {
    pub pid: String,
    pub name: String,
    pub read: String,
    pub write: String,
    pub rate: String,
    pub total: String,
    pub active: bool,
}

#[verifier::ext_equal]
pub struct ProcessRowView {
    pub pid: Seq<char>,
    pub name: Seq<char>,
    pub read: Seq<char>,
    pub write: Seq<char>,
    pub rate: Seq<char>,
    pub total: Seq<char>,
    pub active: bool,
}

impl View for ProcessRow {
    type V = ProcessRowView;

    open spec fn view(&self) -> ProcessRowView {
        ProcessRowView {
            pid: self.pid@,
            name: self.name@,
            read: self.read@,
            write: self.write@,
            rate: self.rate@,
            total: self.total@,
            active: self.active,
        }
    }
}

pub open spec fn delta_text(n: u64) -> Seq<char> {
    if n > 0 {
        "+"@ + decimal(n as nat)
    } else {
        "0"@
    }
}

fn make_delta(n: u64) -> (r: String)
    ensures
        r@ == delta_text(n),
{
    if n > 0 {
        cat2("+", u64_text(n).as_str())
    } else {
        copy("0")
    }
}

/// A counter with its rate over the interval between the snapshots.
pub open spec fn counter_row(c: (Seq<char>, u64, u64), interval: Double) -> CounterRowView {
    CounterRowView {
        name: c.0,
        delta: delta_text(c.1),
        per_second: if c.1 > 0 && zero().less(interval) {
            fixed(quotient(whole(c.1 as nat), interval), 0)
        } else {
            "0"@
        },
        total: decimal(c.2 as nat),
        active: c.1 > 0,
    }
}

fn make_counter_row(c: &(String, u64, u64), interval: Double) -> (r: CounterRow)
    ensures
        r@ == counter_row((c.0@, c.1, c.2), interval),
{
    CounterRow {
        name: copy(c.0.as_str()),
        delta: make_delta(c.1),
        per_second: if c.1 > 0 && Double::zero().is_less(interval) {
            fixed_text(Double::from_u64(c.1).over(interval), 0)
        } else {
            copy("0")
        },
        total: u64_text(c.2),
        active: c.1 > 0,
    }
}

pub open spec fn counter_rows(counters: Seq<(Seq<char>, u64, u64)>, interval: Double) -> Seq<CounterRowView> {
    Seq::new(counters.len(), |i: int| counter_row(counters[i], interval))
}

pub fn list_counter_rows(counters: &Vec<(String, u64, u64)>, interval: Double) -> (r: Vec<CounterRow>)
    ensures
        views(r@) == counter_rows(views(counters@), interval),
{
    let mut r: Vec<CounterRow> = Vec::new();
    let mut i: usize = 0;
    while i < counters.len()
        invariant
            i <= counters@.len(),
            r@.len() == i,
            forall|k: int| 0 <= k < i ==> (#[trigger] r@[k])@ == counter_row(views(counters@)[k], interval),
        decreases counters@.len() - i,
    {
        let x = &counters[i];
        assert(views(counters@)[i as int] == (x.0@, x.1, x.2));
        r.push(make_counter_row(x, interval));
        i = i + 1;
    }
    assert(views(r@) =~= counter_rows(views(counters@), interval));
    r
}

/// Slow blocking is red, other blocking orange.
pub open spec fn stat_tone(t: TimeStatModel) -> Tone {
    if t.count_delta == 0 {
        Tone::Dim
    } else if t.is_blocked && t.recent_ns > 10_000_000 {
        Tone::Red
    } else if t.is_blocked {
        Tone::Orange
    } else {
        Tone::Read
    }
}

pub open spec fn stat_row(t: TimeStatModel) -> StatRowView {
    StatRowView {
        name: t.name,
        delta: delta_text(t.count_delta),
        total: decimal(t.count_total as nat),
        mean: operation_text(t.mean_ns),
        recent: operation_text(t.recent_ns),
        max: operation_text(t.max_ns),
        tone: stat_tone(t),
    }
}

fn make_stat_row(t: &TimeStatView) -> (r: StatRow)
    ensures
        r@ == stat_row(t@),
{
    StatRow {
        name: copy(t.name.as_str()),
        delta: make_delta(t.count_delta),
        total: u64_text(t.count_total),
        mean: format_operation(t.mean_ns),
        recent: format_operation(t.recent_ns),
        max: format_operation(t.max_ns),
        tone: if t.count_delta == 0 {
            Tone::Dim
        } else if t.is_blocked && t.recent_ns > 10_000_000 {
            Tone::Red
        } else if t.is_blocked {
            Tone::Orange
        } else {
            Tone::Read
        },
    }
}

pub open spec fn stat_rows(stats: Seq<TimeStatModel>) -> Seq<StatRowView> {
    Seq::new(stats.len(), |i: int| stat_row(stats[i]))
}

pub fn list_stat_rows(stats: &Vec<TimeStatView>) -> (r: Vec<StatRow>)
    ensures
        views(r@) == stat_rows(views(stats@)),
{
    let mut r: Vec<StatRow> = Vec::new();
    let mut i: usize = 0;
    while i < stats.len()
        invariant
            i <= stats@.len(),
            r@.len() == i,
            forall|k: int| 0 <= k < i ==> (#[trigger] r@[k])@ == stat_row(views(stats@)[k]),
        decreases stats@.len() - i,
    {
        let x = &stats[i];
        r.push(make_stat_row(x));
        i = i + 1;
    }
    assert(views(r@) =~= stat_rows(views(stats@)));
    r
}

pub open spec fn process_row(p: ProcessRateView) -> ProcessRowView {
    let rate = sum(p.read_bytes_sec, p.write_bytes_sec);
    ProcessRowView {
        pid: decimal(p.pid as nat),
        name: p.name,
        read: rate_text(p.read_bytes_sec),
        write: rate_text(p.write_bytes_sec),
        rate: rate_text(rate),
        total: rate_text(whole(capped_sum(p.total_read, p.total_write) as nat)),
        active: zero().less(rate),
    }
}

fn make_process_row(p: &ProcessRate) -> (r: ProcessRow)
    ensures
        r@ == process_row(p@),
{
    let rate = p.read_bytes_sec.plus(p.write_bytes_sec);
    let total = p.total_read.saturating_add(p.total_write);
    ProcessRow {
        pid: u64_text(p.pid as u64),
        name: copy(p.name.as_str()),
        read: format_bytes(p.read_bytes_sec),
        write: format_bytes(p.write_bytes_sec),
        rate: format_bytes(rate),
        total: format_bytes(Double::from_u64(total)),
        active: Double::zero().is_less(rate),
    }
}

pub open spec fn process_rows(rates: Seq<ProcessRateView>) -> Seq<ProcessRowView> {
    Seq::new(rates.len(), |i: int| process_row(rates[i]))
}

pub fn list_process_rows(rates: &Vec<ProcessRate>) -> (r: Vec<ProcessRow>)
    ensures
        views(r@) == process_rows(views(rates@)),
{
    let mut r: Vec<ProcessRow> = Vec::new();
    let mut i: usize = 0;
    while i < rates.len()
        invariant
            i <= rates@.len(),
            r@.len() == i,
            forall|k: int| 0 <= k < i ==> (#[trigger] r@[k])@ == process_row(views(rates@)[k]),
        decreases rates@.len() - i,
    {
        let x = &rates[i];
        r.push(make_process_row(x));
        i = i + 1;
    }
    assert(views(r@) =~= process_rows(views(rates@)));
    r
}

// ------------------------------------------------------- background, options

/// A background task.
#[derive(Debug)]
pub struct TaskRow {
    pub name: String,
    pub status: String,
    pub tone: Tone,
}

#[verifier::ext_equal]
pub struct TaskRowView {
    pub name: Seq<char>,
    pub status: Seq<char>,
    pub tone: Tone,
}

impl View for TaskRow {
    type V = TaskRowView;

    open spec fn view(&self) -> TaskRowView {
        TaskRowView {
            name: self.name@,
            status: self.status@,
            tone: self.tone,
        }
    }
}

pub open spec fn task_tone(status: Seq<char>) -> Tone {
    if has_prefix(status, "off"@) {
        Tone::Dim
    } else if has_part(status, "running"@) || has_part(status, "on"@) {
        Tone::Green
    } else {
        Tone::Text
    }
}

pub open spec fn task_row(t: (Seq<char>, Seq<char>)) -> TaskRowView {
    TaskRowView { name: t.0, status: t.1, tone: task_tone(t.1) }
}

fn make_task_row(t: &(String, String)) -> (r: TaskRow)
    ensures
        r@ == task_row((t.0@, t.1@)),
{
    let status = t.1.as_str();
    TaskRow {
        name: copy(t.0.as_str()),
        status: copy(status),
        tone: if starts_with(status, "off") {
            Tone::Dim
        } else if contains(status, "running") || contains(status, "on") {
            Tone::Green
        } else {
            Tone::Text
        },
    }
}

pub open spec fn task_rows(tasks: Seq<(Seq<char>, Seq<char>)>) -> Seq<TaskRowView> {
    Seq::new(tasks.len(), |i: int| task_row(tasks[i]))
}

pub fn list_task_rows(tasks: &Vec<(String, String)>) -> (r: Vec<TaskRow>)
    ensures
        views(r@) == task_rows(views(tasks@)),
{
    let mut r: Vec<TaskRow> = Vec::new();
    let mut i: usize = 0;
    while i < tasks.len()
        invariant
            i <= tasks@.len(),
            r@.len() == i,
            forall|k: int| 0 <= k < i ==> (#[trigger] r@[k])@ == task_row(views(tasks@)[k]),
        decreases tasks@.len() - i,
    {
        let x = &tasks[i];
        assert(views(tasks@)[i as int] == (x.0@, x.1@));
        r.push(make_task_row(x));
        i = i + 1;
    }
    assert(views(r@) =~= task_rows(views(tasks@)));
    r
}

/// How many findings the reports on targets hold, up to the largest number.
pub open spec fn finding_count(reports: Seq<TargetReportView>) -> u64
    decreases reports.len(),
{
    if reports.len() == 0 {
        0
    } else {
        let n = reports.last().findings.len();
        let earlier = finding_count(reports.drop_last());
        if earlier + n <= u64::MAX {
            (earlier + n) as u64
        } else {
            u64::MAX
        }
    }
}

/// What the background panel says of targets; nothing where nothing was found.
pub open spec fn findings_text(reports: Seq<TargetReportView>) -> Option<Seq<char>> {
    let n = finding_count(reports);
    if n == 0 {
        None
    } else {
        Some(
            "targets: "@ + decimal(n as nat) + if n == 1 {
                " finding"@
            } else {
                " findings"@
            },
        )
    }
}

fn count_findings(reports: &Vec<TargetReport>) -> (r: u64)
    ensures
        r == finding_count(views(reports@)),
{
    let ghost all = views(reports@);
    let mut n: u64 = 0;
    let mut i: usize = 0;
    proof {
        assert(all.take(0) =~= Seq::<TargetReportView>::empty());
    }
    while i < reports.len()
        invariant
            i <= all.len(),
            all == views(reports@),
            n == finding_count(all.take(i as int)),
        decreases all.len() - i,
    {
        proof {
            assert(all.take(i + 1).drop_last() =~= all.take(i as int));
            assert(all.take(i + 1).last() == reports@[i as int]@);
        }
        n = n.saturating_add(count(&reports[i].findings) as u64);
        i = i + 1;
    }
    proof {
        assert(all.take(i as int) =~= all);
    }
    n
}

/// The line on findings about targets. It does not depend on what is muted.
pub fn findings_line(reports: &Vec<TargetReport>) -> (r: Option<String>)
    ensures
        opt(r) == findings_text(views(reports@)),
{
    let n = count_findings(reports);
    if n == 0 {
        None
    } else {
        let word = if n == 1 {
            " finding"
        } else {
            " findings"
        };
        Some(cat3("targets: ", u64_text(n).as_str(), word))
    }
}

/// How many stalls are listed.
pub const LISTED_STALLS: usize = 5;

pub open spec fn stall_line(e: StallEventView, now: Instant) -> Seq<char> {
    "  "@ + decimal((since(now, e.time) / 1_000_000_000) as nat) + "s ago  "@ + e.device + "  "@
        + e.direction + "  "@ + e.detail
}

pub open spec fn stall_lines(events: Seq<StallEventView>, now: Instant) -> Seq<Seq<char>> {
    let newest = first_of(events, LISTED_STALLS as nat);
    Seq::new(newest.len(), |i: int| stall_line(newest[i], now))
}

/// The newest stalls, with their age in seconds.
pub fn list_stall_lines(events: &Vec<StallEvent>, now: Instant) -> (r: Vec<String>)
    ensures
        views(r@) == stall_lines(views(events@), now),
{
    let ghost newest = first_of(views(events@), LISTED_STALLS as nat);
    let mut r: Vec<String> = Vec::new();
    let mut i: usize = 0;
    while i < events.len() && i < LISTED_STALLS
        invariant
            i <= events@.len(),
            i <= LISTED_STALLS,
            newest == first_of(views(events@), LISTED_STALLS as nat),
            r@.len() == i,
            forall|k: int| 0 <= k < i ==> (#[trigger] r@[k])@ == stall_line(newest[k], now),
        decreases events@.len() - i,
    {
        let e = &events[i];
        assert(newest[i as int] == e@);
        r.push(
            cat8(
                "  ",
                u64_text(time_since(now, e.time) / 1_000_000_000).as_str(),
                "s ago  ",
                e.device.as_str(),
                "  ",
                e.direction,
                "  ",
                e.detail.as_str(),
            ),
        );
        i = i + 1;
    }
    assert(views(r@) =~= stall_lines(views(events@), now));
    r
}

#[derive(Debug, Clone, Copy, PartialEq, Eq, Structural)]
pub enum OptionState {
    Plain,
    Selected,
    Editing,
}

#[derive(Debug)]
pub struct OptionRow {
    pub name: String,
    pub display: String,
    pub state: OptionState,
}

#[verifier::ext_equal]
pub struct OptionRowView {
    pub name: Seq<char>,
    pub display: Seq<char>,
    pub state: OptionState,
}

impl View for OptionRow {
    type V = OptionRowView;

    open spec fn view(&self) -> OptionRowView {
        OptionRowView {
            name: self.name@,
            display: self.display@,
            state: self.state,
        }
    }
}

pub open spec fn option_row(app: AppView, i: int) -> OptionRowView {
    let name = app.tuning.option_names[i];
    let here = i == app.tuning.selected;
    OptionRowView {
        name,
        display: if app.tuning.editing && here {
            app.tuning.edit_buf + "▁"@
        } else {
            option_or(app.current.options, name, "?"@)
        },
        state: if here && app.focus == Focus::Tuning {
            if app.tuning.editing {
                OptionState::Editing
            } else {
                OptionState::Selected
            }
        } else {
            OptionState::Plain
        },
    }
}

pub open spec fn option_rows(app: AppView) -> Seq<OptionRowView> {
    Seq::new(app.tuning.option_names.len(), |i: int| option_row(app, i))
}

fn make_option_row(app: &App, i: usize) -> (r: OptionRow)
    requires
        i < app.tuning.option_names@.len(),
    ensures
        r@ == option_row(app@, i as int),
{
    let name = item(&app.tuning.option_names, i);
    let here = i == app.tuning.selected;
    OptionRow {
        name: copy(name),
        display: if app.tuning.editing && here {
            cat2(app.tuning.edit_buf.as_str(), "▁")
        } else {
            get_option(&app.current.options, name, "?")
        },
        state: if here && app.focus == Focus::Tuning {
            if app.tuning.editing {
                OptionState::Editing
            } else {
                OptionState::Selected
            }
        } else {
            OptionState::Plain
        },
    }
}

/// The rows of the options panel.
pub fn list_option_rows(app: &App) -> (r: Vec<OptionRow>)
    ensures
        views(r@) == option_rows(app@),
{
    let mut r: Vec<OptionRow> = Vec::new();
    let mut i: usize = 0;
    while i < count(&app.tuning.option_names)
        invariant
            i <= app.tuning.option_names@.len(),
            r@.len() == i,
            forall|k: int| 0 <= k < i ==> (#[trigger] r@[k])@ == option_row(app@, k),
        decreases app.tuning.option_names@.len() - i,
    {
        r.push(make_option_row(app, i));
        i = i + 1;
    }
    assert(views(r@) =~= option_rows(app@));
    r
}

// ---------------------------------------------------------------------- sizes

/// How the panel of metrics is divided.
#[derive(Debug, Clone, Copy, PartialEq, Eq, Structural)]
pub struct Sizes {
    pub has_labels: bool,
    pub left: u16,
    pub table: u16,
    pub background: u16,
}

pub open spec fn any_label(devices: Seq<DeviceRateView>) -> bool {
    exists|i: int| 0 <= i < devices.len() && (#[trigger] devices[i]).label is Some
}

pub open spec fn bounded(n: nat, low: nat, high: nat) -> nat {
    if n < low {
        low
    } else if n > high {
        high
    } else {
        n
    }
}

/// How many rows the table asks for.
pub open spec fn table_rows(app: AppView) -> nat {
    if app.show_counters {
        bounded(app.counter_deltas.len(), 10, 30)
    } else if app.show_blocked {
        bounded(app.time_stats_view.len(), 10, 30)
    } else if app.show_processes || app.show_targets || app.show_advisor {
        20
    } else {
        match app.rates {
            Some(r) => r.devices.len(),
            None => 0,
        }
    }
}

pub open spec fn at_most(n: nat, high: nat) -> nat {
    if n > high {
        high
    } else {
        n
    }
}

/// Stalls get room only when there are some.
pub open spec fn background_rows(tasks: nat, stalls: nat) -> nat {
    if stalls > 0 {
        at_most(tasks + 3 + at_most(stalls, LISTED_STALLS as nat), 14)
    } else {
        at_most(tasks, 65_533) + 2
    }
}

pub open spec fn sizes_of(app: AppView) -> Sizes {
    let labels = match app.rates {
        Some(r) => any_label(r.devices),
        None => false,
    };
    Sizes {
        has_labels: labels,
        left: if labels {
            25
        } else {
            20
        },
        table: (at_most(table_rows(app), 65_531) + 4) as u16,
        background: background_rows(lines_on_tasks(app), app.stall_events.len()) as u16,
    }
}

/// The tasks, and a line on findings about targets where there are some.
pub open spec fn lines_on_tasks(app: AppView) -> nat {
    app.current.background.len() + if finding_count(app.target_reports) > 0 {
        1nat
    } else {
        0
    }
}

fn has_label(devices: &Vec<DeviceRate>) -> (r: bool)
    ensures
        r == any_label(views(devices@)),
{
    let mut i: usize = 0;
    while i < devices.len()
        invariant
            i <= devices@.len(),
            forall|k: int| 0 <= k < i ==> (#[trigger] views(devices@)[k]).label is None,
        decreases devices@.len() - i,
    {
        assert(views(devices@)[i as int] == devices@[i as int]@);
        if devices[i].label.is_some() {
            assert(views(devices@)[i as int].label is Some);
            return true;
        }
        i = i + 1;
    }
    false
}

fn bound(n: usize, low: usize, high: usize) -> (r: usize)
    ensures
        r == bounded(n as nat, low as nat, high as nat),
{
    if n < low {
        low
    } else if n > high {
        high
    } else {
        n
    }
}

fn count_table_rows(app: &App) -> (r: usize)
    ensures
        r == table_rows(app@),
{
    if app.show_counters {
        bound(count(&app.counter_deltas), 10, 30)
    } else if app.show_blocked {
        bound(count(&app.time_stats_view), 10, 30)
    } else if app.show_processes || app.show_targets || app.show_advisor {
        20
    } else {
        match &app.rates {
            Some(r) => count(&r.devices),
            None => 0,
        }
    }
}

fn count_background_rows(tasks: usize, line: bool, stalls: usize) -> (r: u16)
    ensures
        r == background_rows(
            (tasks + if line {
                1nat
            } else {
                0
            }) as nat,
            stalls as nat,
        ) as u16,
{
    let tasks: usize = if line && tasks < usize::MAX {
        tasks + 1
    } else {
        tasks
    };
    if stalls > 0 {
        let listed: usize = if stalls > LISTED_STALLS {
            LISTED_STALLS
        } else {
            stalls
        };
        let some: usize = if tasks > 14 {
            14
        } else {
            tasks
        };
        let n: usize = some + 3 + listed;
        if n > 14 {
            14
        } else {
            n as u16
        }
    } else {
        let some: usize = if tasks > 65_533 {
            65_533
        } else {
            tasks
        };
        (some + 2) as u16
    }
}

pub fn sizes(app: &App) -> (r: Sizes)
    ensures
        r == sizes_of(app@),
{
    let has_labels = match &app.rates {
        Some(rates) => has_label(&rates.devices),
        None => false,
    };
    let rows = count_table_rows(app);
    let some: usize = if rows > 65_531 {
        65_531
    } else {
        rows
    };
    Sizes {
        has_labels,
        left: if has_labels {
            25
        } else {
            20
        },
        table: (some + 4) as u16,
        background: count_background_rows(
            count(&app.current.background),
            count_findings(&app.target_reports) > 0,
            count(&app.stall_events),
        ),
    }
}

// ------------------------------------------------------------------------ laws

/// Errors from before are never shown as new: a device is red only while it has
/// more errors than when it was first seen.
pub proof fn law_old_errors_are_not_alarming(errors: u64, initial: Option<u64>)
    ensures
        error_tone(errors, initial) == Tone::Red ==> (initial matches Some(n) && errors > n),
        initial == Some(errors) ==> error_tone(errors, initial) != Tone::Red,
{
}

/// Sorting by pressure lists every device once.
pub proof fn law_sorting_lists_every_device(devices: Seq<DeviceRateView>, by_pressure: bool)
    ensures
        listing(devices, by_pressure).to_multiset() == scores(devices).to_multiset(),
{
    law_arranged_keeps_all::<(usize, Double), ByPressure>(scores(devices));
}

} // verus!
