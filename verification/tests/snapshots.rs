use nasty_top::collect::{
    read_background, snapshot, snapshot_after, wants_reconcile, wants_usage, RawFs, RawUsage,
};
use nasty_top::diagnostics::{sample_gap, Diagnostics};
use nasty_top::member::RawDevice;
use nasty_top::status::StatFs;
use nasty_top::strmap::StrMap;
use nasty_top::sysfs::{DeviceInfo, FsSnapshot, JournalState, SECOND};
use nasty_top::targets::{format_optional_bytes, CopyGcStatus, ReconcileStatus};
use nasty_top::window::CounterWindow;

fn files(entries: &[(&str, &str)]) -> StrMap<String> {
    let mut map = StrMap::new();
    for (name, content) in entries {
        map.insert(name, content.to_string());
    }
    map
}

fn raw(now: u64, options: &[(&str, &str)]) -> RawFs {
    RawFs {
        started_at: now - 2,
        sampled_at: now - 1,
        now,
        cpu: "cpu  1 2 3 4 5 6\n".into(),
        meminfo: "MemTotal: 4 kB\nMemAvailable: 2 kB\nKReclaimable: 1 kB\n".into(),
        diskstats: String::new(),
        stat: Some(StatFs { blocks: 100, available: 40, block_size: 10 }),
        usage: None,
        reconcile: Some("WARNING: old\nScan pending: 3\n".into()),
        option_names: options.iter().map(|o| o.0.to_string()).collect(),
        options: files(options),
        counters: files(&[("io_read", "since mount: 12\n")]),
        time_stats: files(&[
            ("btree_node_read", "count: 8\nduration of events\nmean: 1 ms 2 ms\n"),
            ("blocked_allocate", "count: 1\n"),
        ]),
        time_stats_json: StrMap::new(),
        internal: files(&[
            ("journal_debug", "dirty journal entries: 5/50\nwatermark: stripe\n"),
            ("copygc_status", "running: 0\n"),
            ("rebalance_status", "x\n  running: 1\n"),
        ]),
        top: files(&[("btree_cache_size", "1.5M\n")]),
        canonical: files(&[("/dev/disk/by-id/x", "/dev/nvme0n1")]),
        devices: vec![RawDevice {
            dir: "dev-0".into(),
            files: files(&[("dev", "sda"), ("state", "rw")]),
            block_link: None,
            online: Some(true),
            partition: false,
        }],
        nodes: StrMap::new(),
    }
}

#[test]
fn a_snapshot_holds_what_its_texts_say() {
    let options = [
        ("reconcile_enabled", "1\n"),
        ("metadata_target", "/dev/disk/by-id/x\n"),
        ("promote_target", "ssd\n"),
        ("copygc_enabled", "1"),
        ("rebalance_enabled", "1"),
    ];
    let snap = snapshot(&raw(5_000, &options), &RawUsage::default());
    assert_eq!((snap.cpu_iowait, snap.cpu_total), (5, 21));
    assert_eq!((snap.memory_total_bytes, snap.memory_available_bytes), (4096, 2048));
    assert_eq!((snap.space_total, snap.space_used), (1000, 600));
    assert_eq!(snap.counters.get("io_read"), Some(&12));
    assert_eq!(snap.btree_read_count, 8);
    assert_eq!(f64::from_bits(snap.recent_btree_read_us.bits), 2_000.0);
    assert_eq!(snap.blocked_stats[0].0, "allocate");
    assert_eq!(snap.journal_fill, (5, 50));
    assert_eq!(snap.journal_watermark, "stripe");
    assert_eq!(snap.btree_cache_size_bytes, Some(1_572_864));
    assert_eq!(snap.reconcile.scan_pending, Some(3));
    assert_eq!(snap.copygc.running, Some(false));
    assert_eq!(snap.options.get("promote_target").map(String::as_str), Some("ssd"));
    let targets: Vec<(&str, Option<&str>)> = snap
        .target_configs
        .iter()
        .map(|t| (t.role, t.device_name.as_deref()))
        .collect();
    assert_eq!(targets, [("metadata", Some("nvme0n1")), ("promote", None)]);
    let background: Vec<(&str, &str)> =
        snap.background.iter().map(|b| (b.0.as_str(), b.1.as_str())).collect();
    assert_eq!(background[1..], [("rebalance", "working"), ("copygc", "idle")]);
    assert_eq!(snap.collection_started_at, Some(4_998));
    assert_eq!(snap.diskstats_sampled_at, Some(4_999));
    assert_eq!(snap.allocation_sampled_at, Some(5_000));
}

#[test]
fn reconcile_is_asked_about_only_where_it_is_on() {
    let on = files(&[("reconcile_enabled", "1\n")]);
    let off = files(&[("reconcile_enabled", "0")]);
    assert!(wants_reconcile(&on));
    assert!(!wants_reconcile(&off));
    assert!(!wants_reconcile(&StrMap::new()));
    let snap = snapshot(&raw(9, &[("reconcile_enabled", "0")]), &RawUsage::default());
    assert_eq!(snap.reconcile.state.as_deref(), Some("off"));
    assert_eq!(snap.reconcile.scan_pending, None);
    let none = snapshot(&raw(9, &[]), &RawUsage::default());
    assert_eq!(none.reconcile.state, None);
}

#[test]
fn background_tasks_follow_their_toggles() {
    let read = |options: &[(&str, &str)], internal: &[(&str, &str)], running| {
        let names = options.iter().map(|o| o.0.to_string()).collect();
        let copygc = CopyGcStatus { running, ..CopyGcStatus::default() };
        let reconcile = ReconcileStatus::default();
        read_background(&names, &files(options), &files(internal), &reconcile, &copygc)
            .into_iter()
            .map(|b| format!("{}: {}", b.0, b.1))
            .collect::<Vec<_>>()
    };
    assert_eq!(read(&[], &[], None), ["reconcile: n/a"]);
    let both = [("rebalance_enabled", "1"), ("copygc_enabled", "1")];
    assert_eq!(
        read(&both, &[], None),
        ["reconcile: n/a", "rebalance: enabled", "copygc: enabled (status unknown)"]
    );
    assert_eq!(
        read(&both, &[("rebalance_status", "running: 0")], Some(true)),
        ["reconcile: n/a", "rebalance: idle", "copygc: working"]
    );
    let off = [("rebalance_enabled", "0"), ("copygc_enabled", "")];
    assert_eq!(read(&off, &[], None), ["reconcile: n/a", "rebalance: off", "copygc: off"]);
}

#[test]
fn slow_tables_are_kept_for_less_than_ten_seconds() {
    let first = snapshot(&raw(1_000 * SECOND, &[]), &RawUsage::default());
    assert!(!wants_usage(&raw(1_010 * SECOND - 1, &[]), Some(&first)));
    assert!(wants_usage(&raw(1_010 * SECOND, &[]), Some(&first)));
    assert!(wants_usage(&raw(1_001 * SECOND, &[("x", "1")]), Some(&first)));
    assert!(wants_usage(&raw(1_001 * SECOND, &[]), None));
    let second = snapshot_after(&raw(1_009 * SECOND, &[]), &RawUsage::default(), Some(&first));
    assert_eq!(second.allocation_sampled_at, first.allocation_sampled_at);
}

#[test]
fn the_longest_gap_is_three_intervals_within_bounds() {
    assert_eq!(sample_gap(SECOND), 5 * SECOND);
    assert_eq!(sample_gap(2 * SECOND), 6 * SECOND);
    assert_eq!(sample_gap(30 * SECOND), 60 * SECOND);
    assert_eq!(sample_gap(u64::MAX), 60 * SECOND);
}

#[test]
fn a_break_clears_the_evidence_of_a_window() {
    let mut w = CounterWindow::default();
    assert!(w.observe(SECOND, 5, None, 10 * SECOND).is_none());
    assert_eq!(w.observe(2 * SECOND, 7, None, 10 * SECOND).unwrap().events, 2);
    assert!(w.observe(2 * SECOND, 7, None, 10 * SECOND).is_none()); // no time passed
    assert!(w.buckets.is_empty());
    assert_eq!(w.observe(3 * SECOND, 8, None, 10 * SECOND).unwrap().events, 1);
    assert!(w.observe(30 * SECOND, 9, None, 10 * SECOND).is_none()); // gap
    assert!(w.observe(31 * SECOND, 1, None, 10 * SECOND).is_none()); // reset
}

#[test]
fn an_idle_mean_is_no_evidence() {
    let mut w = CounterWindow::default();
    w.observe(SECOND, 5, Some(900_000_000), 10 * SECOND);
    let idle = w.observe(2 * SECOND, 5, Some(900_000_000), 10 * SECOND).unwrap();
    assert!(!idle.slow());
    assert_eq!(idle.recent_ns, None);
    let busy = w.observe(3 * SECOND, 6, Some(200_000_000), 10 * SECOND).unwrap();
    assert!(busy.slow());
    assert_eq!(
        busy.describe("x"),
        "x: 1 events over 2.0s (0.50/s); latest active EWMA 200.0ms"
    );
}

#[test]
fn findings_that_ended_are_bounded_and_expire() {
    let mut engine = Diagnostics::default();
    let device = |i: u32, state: &str| {
        let mut d = DeviceInfo {
            index: i,
            name: format!("sd{i}"),
            member_uuid: Some(format!("m{i:03}")),
            ..DeviceInfo::default()
        };
        d.allocation.state = Some(state.into());
        d.allocation.online = Some(true);
        d
    };
    let snap = |state: &str, at: u64| FsSnapshot {
        devices: (0..140).map(|i| device(i, state)).collect(),
        journal: JournalState::default(),
        collection_started_at: Some(at),
        diskstats_sampled_at: Some(at),
        ..FsSnapshot::default()
    };
    for (step, state) in ["rw", "ro", "rw"].iter().enumerate() {
        let at = (100 + 2 * step as u64) * SECOND;
        engine.update("fs", &snap(state, at), at, 2 * SECOND);
    }
    assert_eq!(engine.findings.len(), 128);
    for step in 3..40 {
        let at = (100 + 2 * step) * SECOND;
        engine.update("fs", &snap("rw", at), at, 2 * SECOND);
    }
    assert!(engine.findings.is_empty());
}

#[test]
fn unknown_sizes_are_written_as_such() {
    assert_eq!(format_optional_bytes(None), "?");
    assert_eq!(format_optional_bytes(Some(0)), "0 B");
    assert_eq!(format_optional_bytes(Some(3 << 29)), "1.50 GiB");
}
