//! What the tables show: every number from its own source, in its own column.

use crate::advisor::ProposalView;
use crate::analysis::first_named;
use crate::app::{AppView, Focus, StallEventView, TimeStatModel};
use crate::details::{
    confidence_text, diagnostic_lines, explanation, member_line, report_lines, severity_text,
    status_text,
};
use crate::diagnostics::{Confidence, DiagnosticView, Status};
use crate::double::{product, quotient, sum, whole, zero, Double};
use crate::formats::{
    filled_cells, gauge_text, gib_text, latency_text, maximum, operation_text, rate_text,
    short_text, some_bytes, uptime_seconds, uptime_text,
};
use crate::metrics::{pressure_medians, DeviceRateView, ProcessRateView};
use crate::numeral::{fixed, parsed, truncated};
use crate::order::{
    law_arranged_among_is_ordered, law_arranged_holds_the_same, law_arranged_keeps_all, ranks_among,
    Rule,
};
use crate::rows::{
    counter_rows, device_rows, device_sums, findings_text, header_of, listing, option_rows,
    process_rows, scores, sizes_of, stall_lines, stat_rows, task_rows, total_row, ByPressure,
    DeviceRowView, OptionState, Split,
};
use crate::strmap::find;
use crate::sysfs::{DeviceInfoView, FsSnapshotView, Instant};
use crate::targets::{
    bytes_text, work_texts, ReconcileStatusView, ReconcileWorkView, Severity, TargetReportView,
};
use crate::text::{decimal, has_prefix, joined, words_of};
use crate::theme::Tone;
use crate::tick::microseconds_text;
use crate::window::CounterEvidence;
use vstd::arithmetic::div_mod::lemma_fundamental_div_mod_converse;
use vstd::prelude::*;

verus! {

// ---------------------------------------------------------------------- devices

/// The rate of a category; none where it is not listed.
pub open spec fn rate_in(by_type: Seq<(Seq<char>, Double)>, name: Seq<char>) -> Double {
    match find(by_type, name) {
        Some(x) => x,
        None => zero(),
    }
}

/// Whether cells show the rates of user data, btree nodes, the journal and
/// superblocks, and of all.
pub open spec fn shows_split(
    cells: Seq<Seq<char>>,
    by_type: Seq<(Seq<char>, Double)>,
    all: Double,
) -> bool {
    &&& cells.len() == 5
    &&& cells[0] == some_bytes(rate_in(by_type, "user"@))
    &&& cells[1] == some_bytes(rate_in(by_type, "btree"@))
    &&& cells[2] == some_bytes(rate_in(by_type, "journal"@))
    &&& cells[3] == some_bytes(rate_in(by_type, "sb"@))
    &&& cells[4] == short_text(all)
}

/// Whether a row shows a device.
pub open spec fn shows_device(
    r: DeviceRowView,
    d: DeviceRateView,
    initial: Seq<(Seq<char>, u64)>,
) -> bool {
    &&& r.name == d.name
    &&& d.label matches Some(l) ==> r.label == l
    &&& r.errors == d.io_errors
    &&& find(initial, d.name) is Some && find(initial, d.name)->0 < d.io_errors ==> r.error_tone
        == Tone::Red
    &&& find(initial, d.name) is Some && find(initial, d.name)->0 >= d.io_errors ==> r.error_tone
        != Tone::Red
    &&& shows_split(r.read.cells, d.read_by_type, d.read_bytes_sec)
    &&& shows_split(r.write.cells, d.write_by_type, d.write_bytes_sec)
    &&& d.read_active ==> r.read.latency == latency_text(d.read_latency_ns)
    &&& d.write_active ==> r.write.latency == latency_text(d.write_latency_ns)
    &&& !d.read_active ==> r.read.latency == "—"@ && r.read.tone == Tone::Read
    &&& !d.write_active ==> r.write.latency == "—"@ && r.write.tone == Tone::Write
    &&& r.queue == decimal(d.queue_depth as nat) + "/"@ + fixed(d.avg_queue_depth, 1)
    &&& r.iops == fixed(sum(d.read_iops, d.write_iops), 0)
    &&& r.awaits == fixed(d.read_await_ms, 1) + "/"@ + fixed(d.write_await_ms, 1)
    &&& zero().less(d.util_pct) ==> r.util == fixed(d.util_pct, 0) + "%"@
    &&& whole(80).less(d.util_pct) ==> r.util_tone == Tone::Red
}

proof fn lemma_row(
    d: DeviceRateView,
    initial: Seq<(Seq<char>, u64)>,
    medians: (Double, Double),
)
    ensures
        shows_device(crate::rows::device_row(d, initial, medians), d, initial),
        crate::rows::device_row(d, initial, medians).pressured == d.under_pressure(
            medians.0,
            medians.1,
        ),
{
}

/// The table of devices has a row for each, in their order where it is not sorted,
/// and each row shows its own device: reads on the side of reads, writes on that of
/// writes, and the pressure by the medians of all.
pub proof fn law_rows_show_their_devices(
    devices: Seq<DeviceRateView>,
    initial: Seq<(Seq<char>, u64)>,
    i: int,
)
    requires
        0 <= i < devices.len() <= usize::MAX,
    ensures
        device_rows(devices, false, initial).len() == devices.len(),
        shows_device(device_rows(devices, false, initial)[i], devices[i], initial),
        device_rows(devices, false, initial)[i].pressured == devices[i].under_pressure(
            pressure_medians(devices).0,
            pressure_medians(devices).1,
        ),
{
    lemma_row(devices[i], initial, pressure_medians(devices));
}

/// How pressing a device is: ten thousand where it is an outlier, a hundred for each
/// request that waits in the mean, ten for each that waits now, its longer mean time
/// in milliseconds, and the share of the time that it is busy.
pub proof fn law_pressure_weighs_what_waits(d: DeviceRateView, medians: (Double, Double))
    ensures
        d.score(medians.0, medians.1) == sum(
            sum(
                sum(
                    sum(
                        if d.under_pressure(medians.0, medians.1) {
                            whole(10_000)
                        } else {
                            zero()
                        },
                        product(d.avg_queue_depth, whole(100)),
                    ),
                    product(whole(d.queue_depth as nat), whole(10)),
                ),
                crate::double::larger(d.read_await_ms, d.write_await_ms),
            ),
            quotient(d.util_pct, whole(100)),
        ),
{
}

proof fn lemma_scores_rank()
    ensures
        ranks_among::<(usize, Double), ByPressure>(|e: (usize, Double)| !e.1.nan()),
{
}

/// Sorted by pressure, the table has a row for each device, the most pressing first.
pub proof fn law_the_most_pressing_device_comes_first(
    devices: Seq<DeviceRateView>,
    initial: Seq<(Seq<char>, u64)>,
)
    requires
        devices.len() <= usize::MAX,
        forall|i: int|
            0 <= i < devices.len() ==> !(#[trigger] devices[i]).score(
                pressure_medians(devices).0,
                pressure_medians(devices).1,
            ).nan(),
    ensures
        ({
            let rows = device_rows(devices, true, initial);
            let m = pressure_medians(devices);
            &&& rows.len() == devices.len()
            &&& exists|order: Seq<int>|
                #[trigger] order.len() == rows.len() && (forall|k: int|
                    0 <= k < order.len() ==> 0 <= #[trigger] order[k] < devices.len()
                        && shows_device(rows[k], devices[order[k]], initial)) && (forall|
                    i: int,
                    j: int,
                |
                    0 <= i < j < order.len() ==> !devices[#[trigger] order[i]].score(
                        m.0,
                        m.1,
                    ).less(devices[#[trigger] order[j]].score(m.0, m.1))) && (forall|d: int|
                    0 <= d < devices.len() ==> #[trigger] order.contains(d))
        }),
{
    let s = scores(devices);
    let m = pressure_medians(devices);
    let l = listing(devices, true);
    let rows = device_rows(devices, true, initial);
    let good = |e: (usize, Double)| !e.1.nan();
    lemma_scores_rank();
    law_arranged_keeps_all::<(usize, Double), ByPressure>(s);
    assert forall|i: int| 0 <= i < s.len() implies good(#[trigger] s[i]) by {
        assert(!devices[i].score(m.0, m.1).nan());
    }
    law_arranged_among_is_ordered::<(usize, Double), ByPressure>(s, good);
    let order = Seq::new(l.len(), |k: int| l[k].0 as int);
    assert forall|k: int| 0 <= k < l.len() implies 0 <= (#[trigger] l[k]).0 < devices.len() && l[k].1
        == devices[l[k].0 as int].score(m.0, m.1) by {
        assert(l.contains(l[k]));
        law_arranged_holds_the_same::<(usize, Double), ByPressure>(s, l[k]);
        let q = choose|q: int| 0 <= q < s.len() && s[q] == l[k];
        assert(s[q] == (q as usize, devices[q].score(m.0, m.1)));
    }
    assert forall|k: int| 0 <= k < order.len() implies 0 <= #[trigger] order[k] < devices.len()
        && shows_device(rows[k], devices[order[k]], initial) by {
        assert(0 <= l[k].0 < devices.len());
        lemma_row(devices[order[k]], initial, m);
    }
    assert forall|i: int, j: int| 0 <= i < j < order.len() implies !devices[
    #[trigger] order[i]].score(m.0, m.1).less(devices[#[trigger] order[j]].score(m.0, m.1)) by {
        assert(!<ByPressure as Rule<(usize, Double)>>::before(l[j], l[i]));
        assert(l[i].1 == devices[l[i].0 as int].score(m.0, m.1));
        assert(l[j].1 == devices[l[j].0 as int].score(m.0, m.1));
    }
    assert forall|d: int| 0 <= d < devices.len() implies #[trigger] order.contains(d) by {
        assert(s[d] == (d as usize, devices[d].score(m.0, m.1)));
        assert(s.contains(s[d]));
        law_arranged_holds_the_same::<(usize, Double), ByPressure>(s, s[d]);
        let k = choose|k: int| 0 <= k < l.len() && l[k] == s[d];
        assert(order[k] == d);
    }
    assert(order.len() == rows.len());
}

/// The totals add up device by device: one more adds its errors and each of its
/// rates to the total of its own column.
pub proof fn law_totals_add_up(devices: Seq<DeviceRateView>, d: DeviceRateView)
    ensures
        ({
            let (e, r, w) = device_sums(devices);
            let (e2, r2, w2) = device_sums(devices.push(d));
            &&& e + d.io_errors <= u64::MAX ==> e2 == e + d.io_errors
            &&& r2.user == sum(r.user, rate_in(d.read_by_type, "user"@))
            &&& r2.btree == sum(r.btree, rate_in(d.read_by_type, "btree"@))
            &&& r2.journal == sum(r.journal, rate_in(d.read_by_type, "journal"@))
            &&& r2.superblock == sum(r.superblock, rate_in(d.read_by_type, "sb"@))
            &&& r2.total == sum(r.total, d.read_bytes_sec)
            &&& w2.user == sum(w.user, rate_in(d.write_by_type, "user"@))
            &&& w2.btree == sum(w.btree, rate_in(d.write_by_type, "btree"@))
            &&& w2.journal == sum(w.journal, rate_in(d.write_by_type, "journal"@))
            &&& w2.superblock == sum(w.superblock, rate_in(d.write_by_type, "sb"@))
            &&& w2.total == sum(w.total, d.write_bytes_sec)
        }),
{
    assert(devices.push(d).drop_last() =~= devices);
    assert(devices.push(d).last() == d);
}

/// Without devices all totals are zero.
pub proof fn law_totals_start_at_zero(devices: Seq<DeviceRateView>)
    requires
        devices.len() == 0,
    ensures
        ({
            let (e, r, w) = device_sums(devices);
            &&& e == 0
            &&& r.user == zero() && r.btree == zero() && r.journal == zero() && r.superblock
                == zero() && r.total == zero()
            &&& w.user == zero() && w.btree == zero() && w.journal == zero() && w.superblock
                == zero() && w.total == zero()
        }),
{
}

proof fn lemma_sums_shown(s: Split)
    ensures
        crate::rows::split_cells(s).len() == 5,
        crate::rows::split_cells(s)[0] == some_bytes(s.user),
        crate::rows::split_cells(s)[1] == some_bytes(s.btree),
        crate::rows::split_cells(s)[2] == some_bytes(s.journal),
        crate::rows::split_cells(s)[3] == some_bytes(s.superblock),
        crate::rows::split_cells(s)[4] == short_text(s.total),
{
}

/// The row of totals shows the sums of each side in the order of the columns.
pub proof fn law_the_total_row_shows_the_sums(devices: Seq<DeviceRateView>)
    ensures
        ({
            let t = total_row(devices);
            let (e, r, w) = device_sums(devices);
            &&& t.errors == e
            &&& t.read.len() == 5 && t.write.len() == 5
            &&& t.read[0] == some_bytes(r.user) && t.read[1] == some_bytes(r.btree)
            &&& t.read[2] == some_bytes(r.journal) && t.read[3] == some_bytes(r.superblock)
            &&& t.read[4] == short_text(r.total)
            &&& t.write[0] == some_bytes(w.user) && t.write[1] == some_bytes(w.btree)
            &&& t.write[2] == some_bytes(w.journal) && t.write[3] == some_bytes(w.superblock)
            &&& t.write[4] == short_text(w.total)
        }),
{
    let (e, r, w) = device_sums(devices);
    lemma_sums_shown(r);
    lemma_sums_shown(w);
}

// ------------------------------------------------------------------ other tables

/// Every counter has its row: what it rose by, how fast over the interval, and what
/// it is.
pub proof fn law_counter_rows_show_their_counters(
    counters: Seq<(Seq<char>, u64, u64)>,
    interval: Double,
    i: int,
)
    requires
        0 <= i < counters.len(),
    ensures
        counter_rows(counters, interval).len() == counters.len(),
        ({
            let (name, rise, all) = counters[i];
            let r = counter_rows(counters, interval)[i];
            &&& r.name == name && r.total == decimal(all as nat)
            &&& r.active <==> rise > 0
            &&& rise > 0 ==> r.delta == "+"@ + decimal(rise as nat)
            &&& rise == 0 ==> r.delta == "0"@ && r.per_second == "0"@
            &&& rise > 0 && zero().less(interval) ==> r.per_second == fixed(
                quotient(whole(rise as nat), interval),
                0,
            )
        }),
{
}

/// Every timed operation has its row, with its own mean, recent and longest time in
/// that order; slow blocking is red.
pub proof fn law_stat_rows_show_their_operations(stats: Seq<TimeStatModel>, i: int)
    requires
        0 <= i < stats.len(),
    ensures
        stat_rows(stats).len() == stats.len(),
        ({
            let t = stats[i];
            let r = stat_rows(stats)[i];
            &&& r.name == t.name && r.total == decimal(t.count_total as nat)
            &&& t.count_delta > 0 ==> r.delta == "+"@ + decimal(t.count_delta as nat)
            &&& t.count_delta == 0 ==> r.delta == "0"@ && r.tone == Tone::Dim
            &&& r.mean == operation_text(t.mean_ns)
            &&& r.recent == operation_text(t.recent_ns)
            &&& r.max == operation_text(t.max_ns)
            &&& r.tone == Tone::Red <==> t.count_delta > 0 && t.is_blocked && t.recent_ns
                > 10_000_000
        }),
{
}

/// Every process has its row, with what it reads, what it writes, both together and
/// both in all.
pub proof fn law_process_rows_show_their_processes(rates: Seq<ProcessRateView>, i: int)
    requires
        0 <= i < rates.len(),
    ensures
        process_rows(rates).len() == rates.len(),
        ({
            let p = rates[i];
            let r = process_rows(rates)[i];
            let both = sum(p.read_bytes_sec, p.write_bytes_sec);
            &&& r.pid == decimal(p.pid as nat) && r.name == p.name
            &&& r.read == rate_text(p.read_bytes_sec)
            &&& r.write == rate_text(p.write_bytes_sec)
            &&& r.rate == rate_text(both)
            &&& p.total_read + p.total_write <= u64::MAX ==> r.total == rate_text(
                whole((p.total_read + p.total_write) as nat),
            )
            &&& r.active <==> zero().less(both)
        }),
{
}

/// The five newest stalls are shown, each with its age, where it was and what was
/// slow.
pub proof fn law_stall_lines_show_the_newest(events: Seq<StallEventView>, now: Instant, i: int)
    ensures
        events.len() <= 5 ==> stall_lines(events, now).len() == events.len(),
        events.len() > 5 ==> stall_lines(events, now).len() == 5,
        0 <= i < stall_lines(events, now).len() && events[i].time <= now ==> stall_lines(
            events,
            now,
        )[i] == "  "@ + decimal(((now - events[i].time) / 1_000_000_000) as nat) + "s ago  "@
            + events[i].device + "  "@ + events[i].direction + "  "@ + events[i].detail,
{
}

/// Every listed option shows its own value; the one that is edited shows the edit,
/// and is marked where the panel has the keys.
pub proof fn law_option_rows_show_their_values(app: AppView, i: int)
    requires
        0 <= i < app.tuning.option_names.len(),
    ensures
        option_rows(app).len() == app.tuning.option_names.len(),
        ({
            let name = app.tuning.option_names[i];
            let r = option_rows(app)[i];
            let here = i == app.tuning.selected;
            &&& r.name == name
            &&& !(here && app.tuning.editing) && find(
                app.current.options,
                name,
            ) is Some ==> r.display == find(app.current.options, name)->0
            &&& !(here && app.tuning.editing) && find(
                app.current.options,
                name,
            ) is None ==> r.display == "?"@
            &&& here && app.tuning.editing ==> r.display == app.tuning.edit_buf + "▁"@
            &&& r.state == OptionState::Editing <==> here && app.focus == Focus::Tuning
                && app.tuning.editing
            &&& r.state == OptionState::Selected <==> here && app.focus == Focus::Tuning
                && !app.tuning.editing
        }),
{
}

/// The line at the top shows the filesystem, where it is mounted, how much of its
/// space is used, and its replicas and compression.
pub proof fn law_the_header_shows_the_filesystem(app: AppView)
    ensures
        ({
            let h = header_of(app);
            let s = app.current;
            let copies = find(s.options, "data_replicas"@);
            let packing = find(s.options, "compression"@);
            &&& h.name == app.fs.fs_name + " ("@ + app.fs.mount_point + ")"@
            &&& h.space == gib_text(s.space_used) + "/"@ + gib_text(s.space_total) + " GiB "@
            &&& s.space_total > 0 ==> h.used_pct == product(
                quotient(whole(s.space_used as nat), whole(s.space_total as nat)),
                whole(100),
            )
            &&& s.space_total == 0 ==> h.used_pct == zero()
            &&& h.share == "("@ + fixed(h.used_pct, 1) + "%)"@
            &&& copies is Some && packing is Some && app.all_fs.len() == 1 ==> h.rest == copies->0
                + "x "@ + packing->0 + ""@ + " "@
            &&& copies is Some && packing is Some && app.all_fs.len() > 1 ==> h.rest == copies->0
                + "x "@ + packing->0 + (" ["@ + decimal((app.fs_index + 1) as nat) + "/"@ + decimal(
                app.all_fs.len(),
            ) + "]"@) + " "@
        }),
{
}

/// All findings of the reports.
pub open spec fn findings_in(reports: Seq<TargetReportView>) -> nat
    decreases reports.len(),
{
    if reports.len() == 0 {
        0
    } else {
        findings_in(reports.drop_last()) + reports.last().findings.len()
    }
}

/// The background panel counts every finding on targets, and is silent without one.
pub proof fn law_every_finding_is_counted(reports: Seq<TargetReportView>)
    requires
        findings_in(reports) <= u64::MAX,
    ensures
        findings_text(reports) is None <==> findings_in(reports) == 0,
        findings_in(reports) == 1 ==> findings_text(reports) == Some(
            "targets: "@ + decimal(1) + " finding"@,
        ),
        findings_in(reports) > 1 ==> findings_text(reports) == Some(
            "targets: "@ + decimal(findings_in(reports)) + " findings"@,
        ),
{
    lemma_counted(reports);
}

proof fn lemma_counted(reports: Seq<TargetReportView>)
    requires
        findings_in(reports) <= u64::MAX,
    ensures
        crate::rows::finding_count(reports) == findings_in(reports),
    decreases reports.len(),
{
    if reports.len() > 0 {
        lemma_counted(reports.drop_last());
    }
}

// ------------------------------------------------------------------------ texts

/// What reconcile does is said with its progress, the scans that wait and the work
/// that is left, each where there is any.
pub proof fn law_reconcile_is_described(r: ReconcileStatusView, state: Seq<char>)
    requires
        r.state == Some(state),
        r.work.len() == 0,
    ensures
        r.progress is None && r.scan_pending is None ==> r.text() == state,
        r.progress is Some && r.scan_pending is None ==> r.text() == state + " "@ + r.progress->0,
        r.progress is None && r.scan_pending is Some && r.scan_pending->0 > 0 ==> r.text() == state
            + " \u{2014} "@ + ("scans:"@ + decimal(r.scan_pending->0 as nat)),
        r.scan_pending == Some(0u64) ==> r.text() == (ReconcileStatusView {
            scan_pending: None,
            ..r
        }).text(),
{
    let none = Seq::<Seq<char>>::empty();
    let sep = " \u{2014} "@;
    assert(work_texts(r.work) =~= none);
    let first = match r.progress {
        Some(p) => state + " "@ + p,
        None => state,
    };
    let scans = "scans:"@ + decimal(r.scan_pending->0 as nat);
    let two = seq![first, scans] + none;
    assert(seq![first] + none =~= seq![first]);
    assert(joined(seq![first], sep) == first);
    assert(two.drop_last() =~= seq![first]);
    assert(two.last() == scans);
    assert(joined(two, sep) == first + sep + scans);
}

/// Work is said of a category exactly where some is left, data before metadata.
pub proof fn law_work_left_is_described(work: Seq<ReconcileWorkView>, w: ReconcileWorkView)
    ensures
        ({
            let left = (w.data_bytes is Some && w.data_bytes->0 > 0) || (w.metadata_bytes is Some
                && w.metadata_bytes->0 > 0);
            let before = work_texts(work);
            let after = work_texts(work.push(w));
            &&& left ==> after == before.push(
                w.category + ":data="@ + bytes_text(w.data_bytes) + " meta="@ + bytes_text(
                    w.metadata_bytes,
                ),
            )
            &&& !left ==> after == before
        }),
{
    assert(work.push(w).drop_last() =~= work);
}

/// The colour of a latency grows with it, in steps of a millisecond, ten and a
/// hundred.
pub proof fn law_latencies_are_coloured_by_length(ns: u64)
    ensures
        crate::theme::latency_tone(ns) == Tone::Green <==> ns < 1_000_000,
        crate::theme::latency_tone(ns) == Tone::Yellow <==> 1_000_000 <= ns < 10_000_000,
        crate::theme::latency_tone(ns) == Tone::Orange <==> 10_000_000 <= ns < 100_000_000,
        crate::theme::latency_tone(ns) == Tone::Red <==> ns >= 100_000_000,
{
}

/// The largest of some numbers is one of them, or zero, and none is above it.
pub proof fn law_a_chart_reaches_its_largest(data: Seq<Double>, i: int)
    requires
        forall|k: int| 0 <= k < data.len() ==> !(#[trigger] data[k]).nan(),
        0 <= i < data.len(),
    ensures
        data[i].at_most(maximum(data)),
        maximum(data) == zero() || data.contains(maximum(data)),
    decreases data.len(),
{
    let rest = data.drop_last();
    assert(data[data.len() - 1] == data.last());
    assert forall|k: int| 0 <= k < rest.len() implies !(#[trigger] rest[k]).nan() by {
        assert(rest[k] == data[k]);
    }
    if rest.len() > 0 {
        law_a_chart_reaches_its_largest(rest, if i < rest.len() {
            i
        } else {
            0
        });
        if rest.contains(maximum(rest)) {
            let k = choose|k: int| 0 <= k < rest.len() && rest[k] == maximum(rest);
            assert(data[k] == maximum(rest));
        }
        if i < rest.len() {
            assert(rest[i] == data[i]);
        }
    } else {
        assert(maximum(rest) == zero());
    }
    lemma_not_nan(rest);
}

proof fn lemma_not_nan(data: Seq<Double>)
    requires
        forall|k: int| 0 <= k < data.len() ==> !(#[trigger] data[k]).nan(),
    ensures
        !maximum(data).nan(),
    decreases data.len(),
{
    if data.len() > 0 {
        let rest = data.drop_last();
        assert(data[data.len() - 1] == data.last());
        assert forall|k: int| 0 <= k < rest.len() implies !(#[trigger] rest[k]).nan() by {
            assert(rest[k] == data[k]);
        }
        lemma_not_nan(rest);
    }
}

/// A time since the start is shown in days and hours, hours and minutes, or minutes.
pub proof fn law_a_time_is_shown_in_two_units(days: u64, hours: u64, minutes: u64, secs: u64)
    requires
        hours < 24,
        minutes < 60,
        secs < 60,
        days < 0x1_0000_0000,
    ensures
        ({
            let s = (86_400 * days + 3_600 * hours + 60 * minutes + secs) as u64;
            &&& days > 0 ==> uptime_text(s) == decimal(days as nat) + "d "@ + decimal(hours as nat)
                + "h"@
            &&& days == 0 && hours > 0 ==> uptime_text(s) == decimal(hours as nat) + "h "@ + decimal(
                minutes as nat,
            ) + "m"@
            &&& days == 0 && hours == 0 ==> uptime_text(s) == decimal(minutes as nat) + "m"@
        }),
{
    lemma_units_of_time(days as int, hours as int, minutes as int, secs as int);
}

proof fn lemma_units_of_time(days: int, hours: int, minutes: int, secs: int)
    requires
        0 <= days,
        0 <= hours < 24,
        0 <= minutes < 60,
        0 <= secs < 60,
    ensures
        (86_400 * days + 3_600 * hours + 60 * minutes + secs) / 86_400 == days,
        (86_400 * days + 3_600 * hours + 60 * minutes + secs) % 86_400 / 3_600 == hours,
        (86_400 * days + 3_600 * hours + 60 * minutes + secs) % 3_600 / 60 == minutes,
{
    let s = 86_400 * days + 3_600 * hours + 60 * minutes + secs;
    let low = 60 * minutes + secs;
    let rest = 3_600 * hours + low;
    lemma_fundamental_div_mod_converse(s, 86_400, days, rest);
    lemma_fundamental_div_mod_converse(rest, 3_600, hours, low);
    lemma_fundamental_div_mod_converse(s, 3_600, 24 * days + hours, low);
    lemma_fundamental_div_mod_converse(low, 60, minutes, secs);
}

// ---------------------------------------------------------------------- details

/// A finding is told with its state, how grave and how sure it is, what it rests on,
/// since when it is seen, and what to do next, in that order.
pub proof fn law_a_finding_is_told(d: DiagnosticView, now: Instant, i: int)
    requires
        d.status == Status::Active,
        d.severity == Severity::Critical,
        d.confidence == Confidence::Observed,
        d.status_since <= now && d.first_seen <= now && d.last_seen <= now,
    ensures
        ({
            let ls = diagnostic_lines(d, now);
            let n = d.evidence.len();
            &&& ls.len() == n + 3
            &&& ls[0] == "["@ + "active"@ + " for "@ + (decimal(
                ((now - d.status_since) / 1_000_000_000) as nat,
            ) + "s"@) + "] "@ + "CRITICAL"@ + ", "@ + "observed"@ + ": "@ + d.summary
            &&& 0 <= i < n ==> ls[1 + i] == "    "@ + d.evidence[i]
            &&& ls[n as int + 1] == "    first seen "@ + (decimal(
                ((now - d.first_seen) / 1_000_000_000) as nat,
            ) + "s"@) + " ago, last seen "@ + (decimal(
                ((now - d.last_seen) / 1_000_000_000) as nat,
            ) + "s"@) + " ago"@
            &&& ls[n as int + 2] == "    next: "@ + d.action
        }),
{
    let ls = diagnostic_lines(d, now);
    let n = d.evidence.len();
    if 0 <= i < n {
        assert(ls[1 + i] == crate::details::indented(d.evidence)[i]);
    }
}

/// Every state, grade and confidence of a finding has its own word.
pub proof fn law_words_tell_findings_apart(s: Status, g: Severity, c: Confidence)
    ensures
        status_text(s) == match s {
            Status::Active => "active"@,
            Status::Resolved => "resolved"@,
            Status::Stale => "stale"@,
        },
        severity_text(g) == match g {
            Severity::Warning => "WARNING"@,
            Severity::Critical => "CRITICAL"@,
        },
        confidence_text(c) == match c {
            Confidence::Observed => "observed"@,
            Confidence::PossibleCause => "possible cause"@,
        },
{
}

/// A target is told with its members that take data of all, its capacity and what is
/// free of it; then come its members, its findings and the notes.
pub proof fn law_a_target_is_told(r: TargetReportView, snap: FsSnapshotView, n: usize, i: int)
    requires
        r.eligible_members == Some(n),
    ensures
        ({
            let ls = report_lines(r, snap);
            let m = r.members.len();
            &&& ls.len() >= 1 + m + r.notes.len()
            &&& ls[0] == r.role + " -> "@ + r.target + ": eligible "@ + decimal(n as nat) + "/"@
                + decimal(m) + ", capacity "@ + bytes_text(r.capacity_bytes) + ", free "@
                + bytes_text(r.free_bytes)
            &&& 0 <= i < m ==> ls[1 + i] == member_line(r.members[i], snap)
            &&& 0 <= i < r.notes.len() ==> ls[ls.len() - r.notes.len() + i] == "    "@ + r.notes[i]
        }),
{
    let ls = report_lines(r, snap);
    let m = r.members.len();
    let heads = seq![crate::details::report_head(r)] + crate::details::member_lines(
        r.members,
        snap,
    );
    let body = heads + crate::details::findings_lines(r.findings);
    let notes = crate::details::indented(r.notes);
    assert(ls == body + notes);
    assert(ls[0] == heads[0]);
    if 0 <= i < m {
        assert(ls[1 + i] == heads[1 + i]);
    }
    if 0 <= i < r.notes.len() {
        assert(ls[ls.len() - r.notes.len() + i] == notes[i]);
    }
}

/// What is known of a member is told of the first device of its name, each number
/// under its own word.
pub proof fn law_a_member_is_told(
    name: Seq<char>,
    snap: FsSnapshotView,
    d: DeviceInfoView,
    state: Seq<char>,
    durability: u64,
    types: Seq<Seq<char>>,
)
    requires
        first_named(snap.devices, name) == Some(d),
        d.allocation.state == Some(state),
        d.allocation.durability == Some(durability),
        d.allocation.data_allowed == Some(types),
        d.allocation.online == Some(true),
        find(snap.copygc.needs_gc, name) == Some(false),
    ensures
        member_line(name, snap) == "  "@ + name + ": "@ + ("state "@ + state + ", online "@
            + "true"@ + ", durability "@ + decimal(durability as nat) + ", data "@ + joined(
            types,
            ","@,
        ) + ", capacity "@ + bytes_text(d.allocation.capacity_bytes) + ", free "@ + bytes_text(
            d.allocation.free_bytes,
        ) + ", btree "@ + bytes_text(d.allocation.btree_bytes) + ", fragmented "@ + bytes_text(
            d.allocation.fragmented_bytes,
        ) + ", needs GC "@ + "false"@),
{
}

/// The table asks for a row of each entry: between ten and thirty of counters and
/// operations, twenty of the other views, and all devices.
pub proof fn law_tables_have_their_size(app: AppView)
    ensures
        ({
            let s = sizes_of(app);
            let c = app.counter_deltas.len();
            let t = app.time_stats_view.len();
            let plain = !app.show_counters && !app.show_blocked;
            let other = app.show_processes || app.show_targets || app.show_advisor;
            &&& app.show_counters && c <= 10 ==> s.table == 14
            &&& app.show_counters && 10 <= c <= 30 ==> s.table == c + 4
            &&& app.show_counters && c >= 30 ==> s.table == 34
            &&& !app.show_counters && app.show_blocked && 10 <= t <= 30 ==> s.table == t + 4
            &&& plain && other ==> s.table == 24
            &&& plain && !other && app.rates is Some && app.rates->0.devices.len() <= 1000
                ==> s.table == app.rates->0.devices.len() + 4
            &&& s.left == if s.has_labels {
                25
            } else {
                20int
            }
            &&& app.stall_events.len() == 0 && app.current.background.len() <= 1000 && findings_text(
                app.target_reports,
            ) is None ==> s.background == app.current.background.len() + 2
            &&& app.stall_events.len() >= 5 && app.current.background.len() <= 5 && findings_text(
                app.target_reports,
            ) is None ==> s.background == app.current.background.len() + 8
        }),
{
}

/// What a counter shows is told in events, the time that they cover and their rate,
/// and with the latest mean where there is one.
pub proof fn law_evidence_is_told(w: CounterEvidence, name: Seq<char>)
    ensures
        ({
            let head = name + ": "@ + decimal(w.events as nat) + " events over "@ + fixed(
                w.seconds,
                1,
            ) + "s ("@ + fixed(quotient(whole(w.events as nat), w.seconds), 2) + "/s)"@;
            &&& w.recent_ns is None ==> w.text(name) == head + ""@
            &&& w.recent_ns matches Some(ns) ==> w.text(name) == head + ("; latest active EWMA "@
                + fixed(quotient(whole(ns as nat), whole(1_000_000)), 1) + "ms"@)
        }),
{
}

/// Every background task has its row; one that is off is dim.
pub proof fn law_task_rows_show_their_tasks(tasks: Seq<(Seq<char>, Seq<char>)>, i: int)
    requires
        0 <= i < tasks.len(),
    ensures
        ({
            let r = task_rows(tasks);
            &&& r.len() == tasks.len()
            &&& r[i].name == tasks[i].0 && r[i].status == tasks[i].1
            &&& r[i].tone == Tone::Dim <==> has_prefix(tasks[i].1, "off"@)
            &&& has_prefix(tasks[i].1, "running"@) && !has_prefix(tasks[i].1, "off"@) ==> r[i].tone
                == Tone::Green
        }),
{
    let s = tasks[i].1;
    if has_prefix(s, "running"@) {
        assert(s.skip(0) =~= s);
        assert(has_prefix(s.skip(0), "running"@));
    }
}

/// The busy share of a device is green up to a half, yellow up to eight tenths and
/// red above; its errors are red exactly where there are more than at first.
pub proof fn law_devices_are_coloured(d: DeviceRateView, initial: Seq<(Seq<char>, u64)>, n: u64)
    ensures
        ({
            let r = crate::rows::device_row(d, initial, (zero(), zero()));
            &&& whole(80).less(d.util_pct) <==> r.util_tone == Tone::Red
            &&& !whole(80).less(d.util_pct) && whole(50).less(d.util_pct) ==> r.util_tone
                == Tone::Yellow
            &&& !whole(80).less(d.util_pct) && !whole(50).less(d.util_pct) ==> r.util_tone
                == Tone::Green
            &&& find(initial, d.name) == Some(n) ==> (r.error_tone == Tone::Red <==> d.io_errors > n)
            &&& d.io_errors == 0 ==> r.error_tone == Tone::Text
            &&& !zero().less(d.util_pct) ==> r.util == "—"@
            &&& d.read_active ==> r.read.tone == crate::theme::latency_tone(d.read_latency_ns)
            &&& d.write_active ==> r.write.tone == crate::theme::latency_tone(d.write_latency_ns)
            &&& d.label is None ==> r.label == ""@
        }),
{
}

/// Times are shown in the largest unit of which there is one.
pub proof fn law_times_have_the_largest_unit(ns: u64)
    ensures
        ns >= 1_000_000_000 ==> latency_text(ns) == fixed(
            quotient(whole(ns as nat), whole(1_000_000_000)),
            1,
        ) + " s"@ && operation_text(ns) == fixed(
            quotient(whole(ns as nat), whole(1_000_000_000)),
            1,
        ) + "s"@,
        1_000_000 <= ns < 1_000_000_000 ==> latency_text(ns) == fixed(
            quotient(whole(ns as nat), whole(1_000_000)),
            1,
        ) + " ms"@ && operation_text(ns) == fixed(quotient(whole(ns as nat), whole(1_000_000)), 1)
            + "ms"@,
        1_000 <= ns < 1_000_000 ==> latency_text(ns) == fixed(
            quotient(whole(ns as nat), whole(1_000)),
            0,
        ) + " µs"@ && operation_text(ns) == fixed(quotient(whole(ns as nat), whole(1_000)), 0)
            + "µs"@,
        ns < 1_000 ==> latency_text(ns) == decimal(ns as nat) + " ns"@,
        0 < ns < 1_000 ==> operation_text(ns) == decimal(ns as nat) + "ns"@,
        operation_text(0) == "—"@,
{
}

/// Rates and means are shown in the largest unit of which there is one.
pub proof fn law_rates_have_the_largest_unit(x: Double)
    ensures
        whole(1_000_000_000).at_most(x) ==> rate_text(x) == fixed(
            quotient(x, whole(1_000_000_000)),
            1,
        ) + " GB"@ && short_text(x) == fixed(quotient(x, whole(1_000_000_000)), 0) + "G"@,
        !whole(1_000_000_000).at_most(x) && whole(1_000_000).at_most(x) ==> rate_text(x) == fixed(
            quotient(x, whole(1_000_000)),
            1,
        ) + " MB"@ && short_text(x) == fixed(quotient(x, whole(1_000_000)), 0) + "M"@,
        !whole(1_000_000_000).at_most(x) && !whole(1_000_000).at_most(x) && whole(1_000).at_most(x)
            ==> rate_text(x) == fixed(quotient(x, whole(1_000)), 1) + " KB"@ && short_text(x)
            == fixed(quotient(x, whole(1_000)), 0) + "K"@,
        whole(1_000_000).at_most(x) ==> microseconds_text(x) == fixed(
            quotient(x, whole(1_000_000)),
            1,
        ) + "s"@,
        !whole(1_000_000).at_most(x) && whole(1_000).at_most(x) ==> microseconds_text(x) == fixed(
            quotient(x, whole(1_000)),
            1,
        ) + "ms"@,
        !whole(1_000_000).at_most(x) && !whole(1_000).at_most(x) ==> microseconds_text(x) == fixed(
            x,
            0,
        ) + "µs"@,
        zero().less(x) ==> some_bytes(x) == short_text(x),
        !zero().less(x) ==> some_bytes(x) == "—"@,
{
}

/// A hint is explained by how grave it is, its rule, what was measured and what to do
/// next, in that order.
pub proof fn law_a_hint_is_explained(p: ProposalView, i: int)
    requires
        p.criteria.len() > 0,
        0 <= i < p.evidence.len(),
    ensures
        ({
            let ls = explanation(p);
            &&& ls.len() == p.evidence.len() + 4
            &&& ls[0] == severity_text(p.severity) + ": "@ + p.reason
            &&& ls[1] == "Rule: "@ + p.criteria
            &&& ls[2] == "Measured:"@
            &&& ls[3 + i] == "    "@ + p.evidence[i]
            &&& ls.last() == "Next: "@ + p.detail
        }),
{
}

/// A hint without a rule or measurements shows none.
pub proof fn law_a_bare_hint_is_explained(p: ProposalView)
    requires
        p.criteria.len() == 0,
        p.evidence.len() == 0,
    ensures
        explanation(p).len() == 2,
        explanation(p)[0] == severity_text(p.severity) + ": "@ + p.reason,
        explanation(p)[1] == "Next: "@ + p.detail,
{
}

/// A gauge is filled in proportion, between nothing and all of it, and says its
/// percentage without places.
pub proof fn law_a_gauge_is_filled_in_proportion(pct: Double, width: u16)
    ensures
        ({
            let n = truncated(product(quotient(pct, whole(100)), whole(width as nat)));
            !pct.less(zero()) && !whole(100).less(pct) && n <= u16::MAX ==> filled_cells(pct, width)
                == n && gauge_text(pct) == fixed(pct, 0)
        }),
        pct.less(zero()) ==> filled_cells(pct, width) == filled_cells(zero(), width) && gauge_text(
            pct,
        ) == fixed(zero(), 0),
        whole(100).less(pct) ==> filled_cells(pct, width) == filled_cells(whole(100), width)
            && gauge_text(pct) == fixed(whole(100), 0),
{
    crate::double::law_every_quotient_rounds(100 * crate::double::one(), 1);
}

/// The time since the start is the whole part of the first number of the file.
pub proof fn law_uptime_is_the_first_number(content: Seq<char>, x: Double)
    ensures
        words_of(content).len() > 0 && parsed(words_of(content)[0]) == Some(x) ==> uptime_seconds(
            content,
        ) == truncated(x),
        words_of(content).len() == 0 ==> uptime_seconds(content) == truncated(zero()),
{
}

} // verus!
