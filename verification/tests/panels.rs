use nasty_top::app::{App, StallEvent, TimeStatView};
use nasty_top::double::Double;
use nasty_top::formats::{
    chart_start, chart_top, format_bytes, format_bytes_short, format_gib, format_latency,
    format_operation, format_some_bytes, format_uptime, gauge_cells, gauge_label, latency_title,
    loadavg_parts, newest, share_pct, throughput_title, used_of,
};
use nasty_top::metrics::{DeviceRate, History, ProcessRate};
use nasty_top::rows::{
    findings_line, header, list_counter_rows, list_device_rows, list_option_rows, list_process_rows,
    list_stall_lines, list_stat_rows, list_task_rows, sizes, total_device_row, OptionState,
};
use nasty_top::strmap::StrMap;
use nasty_top::sysfs::{BcachefsFs, FsSnapshot, SECOND};
use nasty_top::targets::{Finding, Severity, TargetReport};
use nasty_top::theme::{gradient_color, latency_color, lerp_color, Rgb, Tone};

const NOW: u64 = 1_000 * SECOND;

fn double(x: f64) -> Double {
    Double { bits: x.to_bits() }
}

fn float(x: Double) -> f64 {
    f64::from_bits(x.bits)
}

fn app_with(snap: FsSnapshot) -> App {
    let fs = BcachefsFs {
        uuid: "u".into(),
        mount_point: "/fs/pool".into(),
        fs_name: "pool".into(),
        sysfs: "/sys/u".into(),
    };
    App::new(vec![fs.clone(), fs], 1, snap, Vec::new(), "", NOW)
}

fn finding() -> Finding {
    Finding {
        id: "x".into(),
        severity: Severity::Warning,
        summary: String::new(),
        detail: String::new(),
        criteria: String::new(),
        evidence: Vec::new(),
    }
}

#[test]
fn rates_are_written_in_decimal_units() {
    assert_eq!(format_bytes(double(999.0)), "999 B");
    assert_eq!(format_bytes(double(1_000.0)), "1.0 KB");
    assert_eq!(format_bytes(double(1_550_000.0)), format!("{:.1} MB", 1.55));
    assert_eq!(format_bytes(double(2_000_000_000.0)), "2.0 GB");
    assert_eq!(format_bytes_short(double(999.0)), "999B");
    assert_eq!(format_bytes_short(double(1_499.0)), "1K");
    assert_eq!(format_bytes_short(double(2_600_000.0)), "3M");
    assert_eq!(format_bytes_short(double(7_000_000_000.0)), "7G");
    assert_eq!(format_some_bytes(double(0.0)), "—");
    assert_eq!(format_some_bytes(double(10.0)), "10B");
    assert_eq!(format_gib(3 << 29), "1.5");
}

#[test]
fn latencies_are_written_and_coloured_by_size() {
    assert_eq!(format_latency(999), "999 ns");
    assert_eq!(format_latency(1_000), "1 µs");
    assert_eq!(format_latency(1_500_000), "1.5 ms");
    assert_eq!(format_latency(2_000_000_000), "2.0 s");
    assert_eq!(format_operation(0), "—");
    assert_eq!(format_operation(7), "7ns");
    assert_eq!(format_operation(7_000), "7µs");
    assert_eq!(format_operation(7_200_000), "7.2ms");
    assert_eq!(format_operation(1_000_000_000), "1.0s");
    assert_eq!(latency_color(999_999), Tone::Green);
    assert_eq!(latency_color(1_000_000), Tone::Yellow);
    assert_eq!(latency_color(10_000_000), Tone::Orange);
    assert_eq!(latency_color(100_000_000), Tone::Red);
}

#[test]
fn times_since_the_start_are_written_in_two_units() {
    assert_eq!(format_uptime("59.9 1.0\n"), "0m");
    assert_eq!(format_uptime("3600.5 1.0\n"), "1h 0m");
    assert_eq!(format_uptime("90061 1.0\n"), "1d 1h");
    assert_eq!(format_uptime(""), "0m");
    assert_eq!(
        loadavg_parts("0.10 0.20 0.30 1/100 5"),
        ("0.10".to_string(), "0.20".to_string(), "0.30".to_string())
    );
    assert_eq!(
        loadavg_parts("0.10"),
        ("0.10".to_string(), "?".to_string(), "?".to_string())
    );
}

#[test]
fn the_gradient_runs_from_green_to_red_and_ends() {
    let colour = |x: f64| gradient_color(double(x));
    assert_eq!(colour(0.0), Rgb { r: 40, g: 180, b: 100 });
    assert_eq!(colour(0.25), Rgb { r: 80, g: 220, b: 120 });
    assert_eq!(colour(0.5), Rgb { r: 220, g: 210, b: 60 });
    assert_eq!(colour(0.75), Rgb { r: 240, g: 150, b: 50 });
    assert_eq!(colour(1.0), Rgb { r: 240, g: 70, b: 70 });
    assert_eq!(colour(0.125), Rgb { r: 60, g: 200, b: 110 });
    assert_eq!(colour(-3.0), colour(0.0));
    assert_eq!(colour(9.0), colour(1.0));
    let (a, b) = (Rgb { r: 0, g: 200, b: 9 }, Rgb { r: 100, g: 100, b: 9 });
    assert_eq!(lerp_color(a, b, double(0.5)), Rgb { r: 50, g: 150, b: 9 });
    assert_eq!(Tone::Read.colour(), Rgb { r: 240, g: 190, b: 60 });
    assert_eq!(Tone::Write.colour(), Rgb { r: 80, g: 140, b: 240 });
}

#[test]
fn gauges_fill_by_share() {
    assert_eq!(gauge_cells(double(50.0), 20), 10);
    assert_eq!(gauge_cells(double(99.9), 10), 9);
    assert_eq!(gauge_cells(double(250.0), 10), 10);
    assert_eq!(gauge_cells(double(-1.0), 10), 0);
    assert_eq!(gauge_label(double(12.6)), "13");
    assert_eq!(gauge_label(double(120.0)), "100");
    assert_eq!(float(share_pct(1, 4)), 25.0);
    assert_eq!(float(share_pct(1, 0)), 0.0);
}

#[test]
fn charts_show_the_newest_values_that_fit() {
    assert_eq!(chart_start(100, 10), 80);
    assert_eq!(chart_start(5, 10), 0);
    let data = vec![double(1.5), double(7.0), double(3.0)];
    assert_eq!(float(chart_top(&data)), 7.0);
    assert_eq!(float(chart_top(&Vec::new())), 1.0);
    assert_eq!(float(newest(&data)), 3.0);
    assert_eq!(float(newest(&Vec::new())), 0.0);
    assert_eq!(throughput_title(double(1_500.0), double(12.4)), "1.5 KB/s  12 io/s");
    assert_eq!(latency_title(double(12.4)), "lat 12 µs");
}

#[test]
fn histories_keep_their_newest_values() {
    let mut h = History::new(3);
    for i in 0..5 {
        h.push("x", Double::from_u64(i));
    }
    let kept: Vec<f64> = h.get("x").into_iter().map(float).collect();
    assert_eq!(kept, [2.0, 3.0, 4.0]);
    assert!(h.get("y").is_empty());
}

#[test]
fn the_header_names_the_filesystem_and_its_space() {
    let mut snap = FsSnapshot { space_total: 4 << 30, space_used: 1 << 30, ..FsSnapshot::default() };
    snap.options.insert("data_replicas", "2".into());
    let head = header(&app_with(snap));
    assert_eq!(head.name, "pool (/fs/pool)");
    assert_eq!(head.space, "1.0/4.0 GiB ");
    assert_eq!(head.share, "(25.0%)");
    assert_eq!(head.rest, "2x none [2/2] ");
    assert_eq!(float(head.used_pct), 25.0);
    let blank = header(&app_with(FsSnapshot::default()));
    assert_eq!(blank.share, "(0.0%)");
    assert_eq!(blank.rest, "?x none [2/2] ");
}

fn rate(name: &str, queue: f64, errors: u64) -> DeviceRate {
    let mut d = DeviceRate {
        name: name.into(),
        read_bytes_sec: double(1_500.0),
        write_bytes_sec: double(0.0),
        read_latency_ns: 2_000_000,
        read_active: true,
        read_iops: double(10.0),
        read_await_ms: double(1.25),
        util_pct: double(81.0),
        queue_depth: 3,
        avg_queue_depth: double(queue),
        diskstats_interval_valid: true,
        io_errors: errors,
        ..DeviceRate::default()
    };
    d.read_by_type.insert("user", double(1_000.0));
    d.read_by_type.insert("btree", double(500.0));
    d
}

#[test]
fn device_rows_show_rates_errors_and_pressure() {
    let mut initial = StrMap::new();
    initial.insert("sda", 5);
    initial.insert("sdb", 5);
    let devices = vec![rate("sda", 0.5, 5), rate("sdb", 0.5, 6), rate("sdc", 9.0, 0)];
    let rows = list_device_rows(&devices, false, &initial);
    assert_eq!(rows[0].read.cells, ["1K", "500B", "—", "—", "2K"]);
    assert_eq!(rows[0].read.latency, "2.0 ms");
    assert_eq!(rows[0].read.tone, Tone::Yellow);
    assert_eq!(rows[0].write.cells, ["—", "—", "—", "—", "0B"]);
    assert_eq!(rows[0].write.latency, "—");
    assert_eq!(rows[0].write.tone, Tone::Write); // the colour of the row
    assert_eq!(rows[0].util, "81%");
    assert_eq!(rows[0].util_tone, Tone::Red);
    assert_eq!(rows[0].queue, "3/0.5");
    assert_eq!(rows[0].iops, "10");
    assert_eq!(rows[0].awaits, "1.2/0.0");
    // Errors from before are dimmed; only those that came since are red.
    assert_eq!(rows[0].error_tone, Tone::Dim);
    assert_eq!(rows[1].error_tone, Tone::Red);
    assert_eq!(rows[2].error_tone, Tone::Text);
    assert!(rows[2].pressured);
    assert!(!rows[0].pressured);
    let sorted = list_device_rows(&devices, true, &initial);
    let names: Vec<&str> = sorted.iter().map(|r| r.name.as_str()).collect();
    assert_eq!(names, ["sdc", "sda", "sdb"]);
}

#[test]
fn the_total_row_adds_the_devices() {
    let total = total_device_row(&vec![rate("a", 0.0, 2), rate("b", 0.0, 3)]);
    assert_eq!(total.errors, 5);
    assert_eq!(total.read, ["2K", "1K", "—", "—", "3K"]);
    assert_eq!(total.write, ["—", "—", "—", "—", "0B"]);
}

#[test]
fn counters_show_their_rate_over_the_real_interval() {
    let rows = list_counter_rows(
        &vec![("x".to_string(), 10, 110), ("y".to_string(), 0, 7)],
        double(4.0),
    );
    assert_eq!((rows[0].delta.as_str(), rows[0].per_second.as_str()), ("+10", "2"));
    assert_eq!(rows[0].total, "110");
    assert!(rows[0].active);
    assert_eq!((rows[1].delta.as_str(), rows[1].per_second.as_str()), ("0", "0"));
    assert!(!rows[1].active);
    let none = list_counter_rows(&vec![("x".to_string(), 10, 110)], double(0.0));
    assert_eq!(none[0].per_second, "0");
}

#[test]
fn blocked_operations_stand_out() {
    let stat = |delta, recent_ns, is_blocked| TimeStatView {
        name: "n".into(),
        count_delta: delta,
        count_total: 9,
        mean_ns: 1_500,
        recent_ns,
        max_ns: 0,
        is_blocked,
    };
    let rows = list_stat_rows(&vec![
        stat(1, 20_000_000, true),
        stat(1, 10_000_000, true),
        stat(1, 20_000_000, false),
        stat(0, 20_000_000, true),
    ]);
    let tones: Vec<Tone> = rows.iter().map(|r| r.tone).collect();
    assert_eq!(tones, [Tone::Red, Tone::Orange, Tone::Read, Tone::Dim]);
    assert_eq!(rows[0].delta, "+1");
    assert_eq!(rows[0].mean, "2µs");
    assert_eq!(rows[0].max, "—");
}

#[test]
fn processes_show_rates_and_totals() {
    let rows = list_process_rows(&vec![ProcessRate {
        pid: 42,
        name: "dd".into(),
        read_bytes_sec: double(1_000.0),
        write_bytes_sec: double(500.0),
        total_read: 1_000_000,
        total_write: 500_000,
    }]);
    assert_eq!(rows[0].pid, "42");
    assert_eq!(rows[0].rate, "1.5 KB");
    assert_eq!(rows[0].total, "1.5 MB");
    assert!(rows[0].active);
}

#[test]
fn background_tasks_and_stalls_are_listed() {
    let rows = list_task_rows(&vec![
        ("copygc".to_string(), "off".to_string()),
        ("reconcile".to_string(), "running 5%".to_string()),
        ("rebalance".to_string(), "idle".to_string()),
    ]);
    let tones: Vec<Tone> = rows.iter().map(|r| r.tone).collect();
    assert_eq!(tones, [Tone::Dim, Tone::Green, Tone::Text]);
    let events: Vec<StallEvent> = (0..7)
        .map(|i| StallEvent {
            time: NOW - i * SECOND,
            device: "fs".into(),
            direction: "read",
            detail: "slow".into(),
        })
        .collect();
    let lines = list_stall_lines(&events, NOW);
    assert_eq!(lines.len(), 5);
    assert_eq!(lines[3], "  3s ago  fs  read  slow");
}

#[test]
fn the_options_panel_marks_selection_and_edit() {
    let mut snap = FsSnapshot::default();
    snap.options.insert("a", "1".into());
    snap.options.insert("b", "2".into());
    let mut app = app_with(snap);
    assert!(list_option_rows(&app).iter().all(|r| r.state == OptionState::Plain));
    app.toggle_options();
    app.toggle_focus();
    assert_eq!(list_option_rows(&app)[0].state, OptionState::Selected);
    app.tuning.start_edit("77");
    let rows = list_option_rows(&app);
    assert_eq!(rows[0].state, OptionState::Editing);
    assert_eq!(rows[0].display, "77▁");
    assert_eq!(rows[1].display, "2");
}

#[test]
fn panels_are_sized_by_what_they_show() {
    let mut app = app_with(FsSnapshot {
        background: vec![("reconcile".into(), "idle".into())],
        ..FsSnapshot::default()
    });
    assert_eq!((sizes(&app).left, sizes(&app).table, sizes(&app).background), (20, 4, 3));
    app.stall_events.push(StallEvent {
        time: NOW,
        device: "fs".into(),
        direction: "read",
        detail: "slow".into(),
    });
    assert_eq!(sizes(&app).background, 5);
    app.target_reports.push(TargetReport {
        role: "metadata",
        target: "ssd".into(),
        members: Vec::new(),
        eligible_members: None,
        eligible_devices: Vec::new(),
        capacity_bytes: None,
        free_bytes: None,
        findings: vec![finding(), finding()],
        notes: Vec::new(),
    });
    assert_eq!(sizes(&app).background, 6);
    assert_eq!(findings_line(&app.target_reports).as_deref(), Some("targets: 2 findings"));
    assert_eq!(findings_line(&Vec::new()), None);
    app.show_counters = true;
    assert_eq!(sizes(&app).table, 14);
    app.show_counters = false;
    app.show_advisor = true;
    assert_eq!(sizes(&app).table, 24);
}

#[test]
fn what_is_used_is_what_is_not_available() {
    assert_eq!(used_of(100, 30), 70);
    assert_eq!(used_of(100, 100), 0);
    assert_eq!(used_of(30, 100), 0);
}
