use nasty_top::collect::{snapshot, snapshot_after, wants_usage, RawFs, RawUsage};
use nasty_top::member::RawDevice;
use nasty_top::parse::{
    parse_btree_disk_bytes, parse_copygc_status, parse_diskstats_for, parse_human_bytes,
    parse_io_errors, parse_member_usage, parse_memory_info, DiskStats,
};
use nasty_top::stats::parse_time_stat_text;
use nasty_top::status::{
    bcachefs_mounts, find_mount_for_uuid, parse_journal_state, parse_reconcile_status, DirLink,
};
use nasty_top::strmap::StrMap;
use nasty_top::sysfs::SECOND;
use nasty_top::targets::MemberAllocation;

const RECONCILE_STATUS: &str = "\
Scan pending: 0
                      data  metadata
  replicas:            16k         0
  target:             124G     1.16T
  high_priority:         0         0
  pending:               0         0
processing 12.5% extents
  [<0>] closure_sync_wait+0x1c0/0x210
";

const IO_ERRORS: &str = "\
IO errors since filesystem creation
  read:      100
  write:     12
  checksum:  1
  flush:     2
IO errors since 12 days ago
  read:      7
  write:     1
  checksum:  0
";

const FS_ALLOC_DEBUG: &str = "\
capacity    1953525168
reserved     156282013
hidden         8388608
btree       7821903360
data        3000000000
";

const MEMBER_ALLOC_DEBUG: &str = "\
                     buckets         sectors      fragmented
free                     100               0               0
sb                         7           14344               0
journal                   80          163840               0
btree                    500          900000          124000
user                     300          500000          109600
cached                    13           10000           12400
capacity                1000
";

const COPY_GC_WAIT: &str = "\
running: 1
Currently waiting for: 12.0M
Currently calculated wait:
  nvme1n1p3: -292M
  nvme2n1: 10.5G
";

fn files(entries: &[(&str, &str)]) -> StrMap<String> {
    let mut map = StrMap::new();
    for (name, content) in entries {
        map.insert(name, content.to_string());
    }
    map
}

fn usage_of(nbuckets: &str, alloc_debug: Option<&str>, fs_alloc_debug: &str) -> RawUsage {
    let mut member = files(&[("bucket_size", "1.00M"), ("nbuckets", nbuckets)]);
    if let Some(text) = alloc_debug {
        member.insert("alloc_debug", text.to_string());
    }
    let mut members = StrMap::new();
    members.insert("dev-31", member);
    RawUsage { members, alloc_debug: Some(fs_alloc_debug.to_string()) }
}

fn fixture(state: &str, now: u64) -> RawFs {
    RawFs {
        started_at: now,
        sampled_at: now,
        now,
        cpu: String::new(),
        meminfo: String::new(),
        diskstats: String::new(),
        stat: None,
        usage: None,
        reconcile: None,
        option_names: vec![
            "metadata_replicas".to_string(),
            "metadata_target".to_string(),
            "reconcile_enabled".to_string(),
        ],
        options: files(&[
            ("metadata_target", "ssd.nvme"),
            ("metadata_replicas", "3"),
            ("reconcile_enabled", "0"),
        ]),
        counters: StrMap::new(),
        time_stats: files(&[(
            "journal_flush_write",
            "count: 4\nduration of events\n  mean: 2 s 100 ms\ntime between events\n  mean: 2 s 5 s\n",
        )]),
        time_stats_json: files(&[(
            "journal_flush_seq",
            "{\"count\":0,\"duration_ewma_ns\":{\"mean\":0}}",
        )]),
        internal: StrMap::new(),
        top: StrMap::new(),
        canonical: StrMap::new(),
        devices: vec![RawDevice {
            dir: "dev-31".to_string(),
            files: files(&[
                ("dev", "nvme0n1p3"),
                ("uuid", "test-member-uuid"),
                ("io_errors", IO_ERRORS),
                ("label", "ssd.nvme.31"),
                ("state", state),
                ("durability", "1"),
                ("data_allowed", "journal,btree,user"),
            ]),
            block_link: Some("../backing".to_string()),
            online: Some(true),
            partition: false,
        }],
        nodes: StrMap::new(),
    }
}

#[test]
fn collects_member_capacity_and_refreshes_cached_usage_on_state_change() {
    let now = 1_000 * SECOND;
    let rw = fixture("[rw] ro failed spare", now);
    let usage = usage_of("1000", Some(MEMBER_ALLOC_DEBUG), FS_ALLOC_DEBUG);
    let first = snapshot(&rw, &usage);
    assert_eq!(first.devices[0].identity(), "test-member-uuid");
    assert_eq!(first.devices[0].io_errors, 115); // lifetime, not lifetime + since-reset
    let flush = first
        .all_time_stats
        .iter()
        .find(|s| s.name == "journal_flush_write")
        .unwrap();
    assert_eq!(flush.dur_recent_ns, 100_000_000);
    assert!(flush.recent_valid);
    assert!(first
        .all_time_stats
        .iter()
        .any(|s| s.name == "journal_flush_seq" && s.count == 0));
    assert_eq!(first.devices[0].allocation.state.as_deref(), Some("rw"));
    assert_eq!(first.devices[0].allocation.online, Some(true));
    assert_eq!(first.devices[0].allocation.capacity_bytes, Some(1000 << 20)); // member, not entire backing disk
    assert_eq!(first.devices[0].allocation.free_bytes, Some(100 << 20));
    assert_eq!(first.btree_disk_bytes, Some(7_821_903_360 * 512));
    let changed = usage_of("2000", Some(MEMBER_ALLOC_DEBUG), "btree 1\n");
    assert!(!wants_usage(&rw, Some(&first)));
    let cached = snapshot_after(&rw, &changed, Some(&first));
    assert_eq!(cached.devices[0].allocation.capacity_bytes, Some(1000 << 20));
    assert_eq!(cached.btree_disk_bytes, first.btree_disk_bytes);
    let ro = fixture("rw [ro] failed spare", now);
    assert!(wants_usage(&ro, Some(&cached)));
    let fresh = snapshot_after(&ro, &changed, Some(&cached));
    assert_eq!(fresh.devices[0].allocation.state.as_deref(), Some("ro"));
    assert_eq!(fresh.devices[0].allocation.capacity_bytes, Some(2000 << 20));
    assert_eq!(fresh.btree_disk_bytes, Some(512));
    let mut expired = fresh;
    expired.allocation_sampled_at = Some(now - 11 * SECOND);
    let without = usage_of("2000", None, "btree 1\n");
    let missing = snapshot_after(&ro, &without, Some(&expired));
    assert_eq!(missing.devices[0].allocation.free_bytes, None); // never reuse stale success after a failed refresh
}

#[test]
fn reconcile_keeps_metadata_backlog_and_does_not_treat_parent_wait_as_idle() {
    let status = parse_reconcile_status(RECONCILE_STATUS);
    assert_eq!(status.state.as_deref(), Some("working"));
    assert_eq!(status.metadata_pending("target"), parse_human_bytes("1.16T"));
    assert_eq!(status.metadata_pending("replicas"), Some(0));
    assert!(status.summary().contains("target:data=124.00 GiB meta=1.16 TiB"));
    assert_eq!(status.scan_pending, Some(0));
}

#[test]
fn warnings_change_nothing_wherever_they_stand() {
    let plain = parse_reconcile_status(RECONCILE_STATUS).summary();
    let lines: Vec<&str> = RECONCILE_STATUS.lines().collect();
    for at in 0..=lines.len() {
        for warning in ["WARNING: processing idle", "  please alert upstream: data metadata"] {
            let mut with = lines.clone();
            with.insert(at, warning);
            assert_eq!(parse_reconcile_status(&with.join("\n")).summary(), plain);
        }
    }
}

#[test]
fn reconcile_handles_metadata_only_reordered_and_partial_columns() {
    let status = parse_reconcile_status(
        "Scan pending: 2\nmetadata data\ntarget: 1.16T 0\nprocessing 12.5%\n",
    );
    assert_eq!(status.metadata_pending("target"), parse_human_bytes("1.16T"));
    assert!(status.summary().contains("working 12.5%"));
    assert!(status.summary().contains("scans:2"));
    assert!(status.summary().contains("target:data=0 B meta=1.16 TiB"));
    let partial = parse_reconcile_status("data metadata\ntarget: 124G\n");
    assert_eq!(partial.metadata_pending("target"), None);
    assert!(partial.summary().contains("meta=?"));
    for content in [
        "",
        "permission denied",
        "WARNING: no kernel support\nplease alert upstream",
    ] {
        assert_eq!(parse_reconcile_status(content).summary(), "n/a");
    }
}

#[test]
fn gc_pressure_uses_only_signed_device_waits_not_global_wait() {
    let status = parse_copygc_status(COPY_GC_WAIT);
    assert_eq!(status.running, Some(true));
    assert_eq!(status.needs_gc.get("nvme1n1p3"), Some(&true));
    assert_eq!(status.needs_gc.get("nvme2n1"), Some(&false));
    assert!(!status.needs_gc.contains_key("Currently waiting for"));
    assert!(!status.needs_gc.contains_key("unreported"));
    let truncated = parse_copygc_status(
        "running: invalid\nCurrently calculated wait:\n dev-2: 0\n dev-3: -\n",
    );
    assert_eq!(truncated.running, None);
    assert_eq!(truncated.needs_gc.get("dev-2"), Some(&true));
    assert!(!truncated.needs_gc.contains_key("dev-3"));
}

#[test]
fn allocator_units_distinguish_free_buckets_live_sectors_and_replica_footprint() {
    assert_eq!(parse_btree_disk_bytes(FS_ALLOC_DEBUG), Some(7_821_903_360 * 512));
    assert_eq!(parse_btree_disk_bytes("btree invalid\n"), None);
    assert_eq!(parse_btree_disk_bytes("btree 18446744073709551615\n"), None);
    let mut allocation = MemberAllocation::default();
    parse_member_usage(MEMBER_ALLOC_DEBUG, Some(1 << 20), &mut allocation);
    assert_eq!(allocation.free_bytes, Some(100 << 20));
    assert_eq!(allocation.btree_bytes, Some(900_000 * 512));
    assert_eq!(allocation.fragmented_bytes, Some((124_000 + 109_600 + 12_400) * 512));
    let mut unknown = MemberAllocation::default();
    parse_member_usage(
        "buckets sectors fragmented\nfree 100 0 0\nbtree 500 900000 124000\n",
        None,
        &mut unknown,
    );
    assert_eq!(unknown.free_bytes, None);
    assert_eq!(unknown.btree_bytes, Some(900_000 * 512));
    assert_eq!(unknown.fragmented_bytes, None); // table did not finish
}

#[test]
fn finds_by_uuid_mount_without_member_device_matching() {
    let mounts = bcachefs_mounts(
        "/dev/disk/by-uuid/6ecff1be-9388-482d-a9fd-f1ff6e29a823 /fs/first bcachefs rw 0 0\n",
    );
    assert_eq!(
        find_mount_for_uuid("6ecff1be-9388-482d-a9fd-f1ff6e29a823", &Vec::new(), &mounts),
        Some("/fs/first".to_string())
    );
}

#[test]
fn registers_each_legacy_multi_device_source() {
    let mounts = bcachefs_mounts("/dev/sda:/dev/sdb /fs/pool bcachefs rw 0 0\n");
    assert_eq!(mounts.get("/dev/sda").map(String::as_str), Some("/fs/pool"));
    assert_eq!(mounts.get("/dev/sdb").map(String::as_str), Some("/fs/pool"));
}

#[test]
fn falls_back_to_sparse_member_device_entries() {
    let links = vec![DirLink {
        dir: "dev-7".to_string(),
        target: Some("../../devices/virtual/block/sdb".to_string()),
    }];
    let mounts = bcachefs_mounts("/dev/sda:/dev/sdb /fs/pool bcachefs rw 0 0\n");
    assert_eq!(
        find_mount_for_uuid("example", &links, &mounts),
        Some("/fs/pool".to_string())
    );
}

#[test]
fn keeps_first_mount_for_duplicate_sources() {
    let mounts = bcachefs_mounts(
        "/dev/disk/by-uuid/example /fs/original bcachefs rw 0 0\n\
         /dev/disk/by-uuid/example /fs/bind bcachefs rw 0 0\n",
    );
    assert_eq!(
        mounts.get("/dev/disk/by-uuid/example").map(String::as_str),
        Some("/fs/original")
    );
}

#[test]
fn parses_btree_cache_human_bytes() {
    assert_eq!(parse_human_bytes("4096"), Some(4096));
    assert_eq!(parse_human_bytes("256k"), Some(256 * 1024));
    assert_eq!(parse_human_bytes("1.5M"), Some(1_572_864));
    assert_eq!(parse_human_bytes("unknown"), None);
}

#[test]
fn error_parser_preserves_categories_without_double_counting_reset_section() {
    let counts = parse_io_errors(IO_ERRORS).unwrap();
    assert_eq!(counts.get("read"), Some(&100));
    assert_eq!(counts.get("write"), Some(&12));
    assert_eq!(counts.get("checksum"), Some(&1));
    assert_eq!(counts.get("flush"), Some(&2));
    assert_eq!(counts.len(), 4);
    let legacy = parse_io_errors("read 5\nwrite 2\ncsum 1\n").unwrap();
    assert_eq!(legacy.get("checksum"), Some(&1));
    assert!(!legacy.contains_key("flush"));
    for invalid in [
        "",
        "IO errors since filesystem creation\n",
        "read: bad\n",
        "read: 3\nwrite: bad\n",
    ] {
        assert!(parse_io_errors(invalid).is_none(), "accepted {invalid}");
    }
}

#[test]
fn journal_and_time_stats_keep_unknown_distinct_from_zero() {
    let (journal, watermark) = parse_journal_state(
        "dirty journal entries: 0/100\nseq: 19\nseq_ondisk: 18\nwatermark: stripe\n",
    );
    assert_eq!(journal.entries, Some((0, 100)));
    assert_eq!(journal.seq, Some(19));
    assert_eq!(journal.seq_ondisk, Some(18));
    assert_eq!(watermark, "stripe");
    for invalid in [
        "",
        "dirty journal entries: ?/100\n",
        "dirty journal entries: 1/0\n",
        "dirty journal entries: 101/100\n",
    ] {
        assert_eq!(parse_journal_state(invalid).0.entries, None);
    }
    assert!(parse_time_stat_text("test", "count: ?\n").is_none());
    let count_only = parse_time_stat_text("test", "count: 0\n").unwrap();
    assert_eq!(count_only.count, 0);
    assert!(!count_only.recent_valid);
    for mean in ["NaN ms", "-2 ms", "12 unexpected"] {
        let stat = parse_time_stat_text(
            "test",
            &format!("count: 1\nduration of events\nmean: 4 ms {mean}\n"),
        )
        .unwrap();
        assert!(!stat.recent_valid);
    }
}

#[test]
fn parses_host_memory_values_as_bytes() {
    let meminfo =
        "MemTotal:       32768 kB\nMemAvailable:   12288 kB\nKReclaimable:    2048 kB\n";
    assert_eq!(
        parse_memory_info(meminfo),
        (32 * 1024 * 1024, 12 * 1024 * 1024, 2 * 1024 * 1024)
    );
}

#[test]
fn parses_diskstats_request_and_queue_fields() {
    let diskstats = "   8       0 sda 100 5 2000 400 50 2 1000 600 3 700 900 0 0 0 0\n";
    assert_eq!(
        parse_diskstats_for(diskstats, "sda"),
        DiskStats {
            reads: 100,
            writes: 50,
            read_ms: 400,
            write_ms: 600,
            in_flight: 3,
            io_ms: 700,
            weighted_io_ms: 900,
            valid: true,
            discards: Some(0),
            flushes: None,
        }
    );
    assert_eq!(parse_diskstats_for(diskstats, "sdb"), DiskStats::default());
    let extended = parse_diskstats_for(
        "8 0 sda 100 0 0 400 50 0 0 600 3 700 900 7 0 0 1 8 2",
        "sda",
    );
    assert_eq!(extended.discards, Some(7));
    assert_eq!(extended.flushes, Some(8));
    let old = parse_diskstats_for("8 0 sda 100 0 0 400 50 0 0 600 3 700 900", "sda");
    assert!(old.valid);
    assert_eq!(old.discards, None);
    assert_eq!(old.flushes, None);
    assert_eq!(
        parse_diskstats_for("8 0 sda invalid 5 2000 400 50 2 1000 600 3 700 900\n", "sda"),
        DiskStats::default()
    );
}
