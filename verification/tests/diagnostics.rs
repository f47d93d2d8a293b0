use nasty_top::diagnostics::{Confidence, Diagnostic, Diagnostics, Status};
use nasty_top::double::Double;
use nasty_top::strmap::StrMap;
use nasty_top::sysfs::{DeviceInfo, FsSnapshot, JournalState, TimeStatFull, SECOND};
use nasty_top::targets::{MemberAllocation, Severity};
use nasty_top::window::{CounterWindow, WINDOW};

fn float(x: Double) -> f64 {
    f64::from_bits(x.bits)
}

fn counts(entries: &[(&str, u64)]) -> StrMap<u64> {
    let mut map = StrMap::new();
    for (name, count) in entries {
        map.insert(name, *count);
    }
    map
}

fn snapshot() -> FsSnapshot {
    FsSnapshot {
        devices: vec![DeviceInfo {
            index: 1,
            name: "nvme1n1".into(),
            member_uuid: Some("member-1".into()),
            diskstats_valid: true,
            diskstats_in_flight: 1,
            diskstats_discards: Some(0),
            diskstats_flushes: Some(0),
            error_counts: Some(counts(&[("read", 100), ("write", 0)])),
            allocation: MemberAllocation {
                state: Some("rw".into()),
                online: Some(true),
                ..Default::default()
            },
            ..Default::default()
        }],
        blocked_stats: [
            "journal_low_on_space",
            "journal_max_in_flight",
            "journal_max_open",
            "write_buffer_full",
            "allocate",
        ]
        .into_iter()
        .map(|n| (n.into(), 0, Double::zero()))
        .collect(),
        all_time_stats: [
            "journal_flush_write",
            "journal_noflush_write",
            "journal_flush_seq",
            "journal_pin_flush_btree",
            "journal_pin_flush_key_cache",
        ]
        .into_iter()
        .map(|n| TimeStatFull {
            name: n.into(),
            recent_valid: true,
            ..Default::default()
        })
        .collect(),
        journal: JournalState {
            entries: Some((1, 100)),
            seq: Some(10),
            seq_ondisk: Some(10),
        },
        ..Default::default()
    }
}

fn step(engine: &mut Diagnostics, snap: &mut FsSnapshot, origin: u64, secs: u64) {
    let now = origin + secs * SECOND;
    snap.diskstats_sampled_at = Some(now);
    snap.collection_started_at = Some(now);
    engine.update("fs-1", snap, now, 2 * SECOND);
}

fn block(snap: &mut FsSnapshot, name: &str, count: u64) {
    snap.blocked_stats
        .iter_mut()
        .find(|(n, _, _)| n == name)
        .unwrap()
        .1 = count;
}

fn operation(snap: &mut FsSnapshot, name: &str, count: u64, ns: u64) {
    let stat = snap
        .all_time_stats
        .iter_mut()
        .find(|s| s.name == name)
        .unwrap();
    stat.count = count;
    stat.dur_recent_ns = ns;
}

#[test]
fn io_stall_requires_elapsed_time_and_resolves_on_progress() {
    let origin = 1_000 * SECOND;
    let mut engine = Diagnostics::default();
    let mut snap = snapshot();
    for secs in (0..30).step_by(2) {
        snap.devices[0].diskstats_weighted_io_ms = secs * 1000;
        step(&mut engine, &mut snap, origin, secs);
        assert!(
            !engine
                .findings
                .contains_key("device:member-1:no-completions")
        );
    }
    step(&mut engine, &mut snap, origin, 30);
    let finding = engine.findings.get("device:member-1:no-completions").unwrap();
    assert_eq!(finding.status, Status::Active);
    assert!(finding.summary.contains("30s"));
    assert!(finding.evidence[0].contains("16 consecutive"));
    snap.devices[0].diskstats_reads += 1;
    step(&mut engine, &mut snap, origin, 32);
    assert_eq!(
        engine.findings.get("device:member-1:no-completions").unwrap().status,
        Status::Resolved
    );
    snap.devices[0].diskstats_in_flight = 0;
    for secs in (34..=92).step_by(2) {
        step(&mut engine, &mut snap, origin, secs);
    }
    assert!(
        !engine
            .findings
            .contains_key("device:member-1:no-completions")
    );
}

#[test]
fn discard_or_flush_completions_prevent_false_io_stalls() {
    for flush in [false, true] {
        let origin = 1_000 * SECOND;
        let mut engine = Diagnostics::default();
        let mut snap = snapshot();
        for secs in (0..=60).step_by(2) {
            if flush {
                snap.devices[0].diskstats_flushes = Some(secs);
            } else {
                snap.devices[0].diskstats_discards = Some(secs);
            }
            step(&mut engine, &mut snap, origin, secs);
        }
        assert!(engine.findings.is_empty());
    }
}

#[test]
fn partial_completion_visibility_is_explicit_and_a_change_rebaselines() {
    let origin = 1_000 * SECOND;
    let mut engine = Diagnostics::default();
    let mut snap = snapshot();
    snap.devices[0].diskstats_flushes = None;
    for secs in (0..=30).step_by(2) {
        step(&mut engine, &mut snap, origin, secs);
    }
    assert!(
        engine.findings.get("device:member-1:no-completions").unwrap().evidence[1]
            .contains("flush accounting unavailable")
    );
    snap.devices[0].diskstats_flushes = Some(0);
    step(&mut engine, &mut snap, origin, 32);
    assert_eq!(
        engine.findings.get("device:member-1:no-completions").unwrap().status,
        Status::Stale
    );
}

#[test]
fn a_gap_or_missing_sample_does_not_extend_io_stall_evidence() {
    let origin = 1_000 * SECOND;
    let mut engine = Diagnostics::default();
    let mut snap = snapshot();
    for secs in (0..=30).step_by(2) {
        step(&mut engine, &mut snap, origin, secs);
    }
    snap.devices[0].diskstats_valid = false;
    step(&mut engine, &mut snap, origin, 32);
    assert_eq!(
        engine.findings.get("device:member-1:no-completions").unwrap().status,
        Status::Stale
    );
    snap.devices[0].diskstats_valid = true;
    step(&mut engine, &mut snap, origin, 34);
    step(&mut engine, &mut snap, origin, 60); // gap exceeds configured cadence
    step(&mut engine, &mut snap, origin, 62);
    assert_ne!(
        engine.findings.get("device:member-1:no-completions").unwrap().status,
        Status::Active
    );
}

#[test]
fn slow_collection_does_not_seed_a_falsely_recent_filesystem_baseline() {
    let origin = 1_000 * SECOND;
    let mut engine = Diagnostics::default();
    let mut snap = snapshot();
    snap.collection_started_at = Some(origin);
    snap.diskstats_sampled_at = Some(origin + 10 * SECOND);
    engine.update(
        "fs-1",
        &snap,
        origin + 10 * SECOND,
        2 * SECOND,
    );
    snap.devices[0]
        .error_counts
        .as_mut()
        .unwrap()
        .insert("read", 104);
    step(&mut engine, &mut snap, origin, 12);
    assert!(!engine.findings.contains_key("device:member-1:errors"));
    snap.devices[0]
        .error_counts
        .as_mut()
        .unwrap()
        .insert("read", 105);
    step(&mut engine, &mut snap, origin, 14);
    assert!(
        engine.findings.get("device:member-1:errors").unwrap().evidence[0].contains("1 events over 2.0s")
    );
}

#[test]
fn device_replacement_and_disk_counter_reset_break_continuity() {
    let origin = 1_000 * SECOND;
    let mut engine = Diagnostics::default();
    let mut snap = snapshot();
    snap.devices[0].diskstats_reads = 10;
    for secs in (0..=30).step_by(2) {
        step(&mut engine, &mut snap, origin, secs);
    }
    snap.devices[0].diskstats_reads = 0;
    step(&mut engine, &mut snap, origin, 32);
    assert_eq!(
        engine.findings.get("device:member-1:no-completions").unwrap().status,
        Status::Stale
    );
    snap.devices[0].member_uuid = Some("replacement".into());
    step(&mut engine, &mut snap, origin, 34);
    assert!(
        !engine
            .findings
            .contains_key("device:replacement:no-completions")
    );
    assert_eq!(engine.progress.len(), 1);
}

#[test]
fn journal_classification_distinguishes_space_completion_and_reclaim() {
    let origin = 1_000 * SECOND;
    let mut engine = Diagnostics::default();
    let mut snap = snapshot();
    step(&mut engine, &mut snap, origin, 0);
    block(&mut snap, "journal_max_in_flight", 3);
    operation(&mut snap, "journal_flush_write", 2, 840_000_000);
    step(&mut engine, &mut snap, origin, 2);
    assert!(
        engine.findings.get("journal:pressure").unwrap()
            .summary
            .contains("completion")
    );
    assert_eq!(
        engine.findings.get("journal:pressure").unwrap().confidence,
        Confidence::PossibleCause
    );
    assert!(
        engine.findings.get("journal:pressure").unwrap()
            .evidence
            .iter()
            .any(|s| s.contains("840.0ms"))
    );
    operation(&mut snap, "journal_pin_flush_btree", 1, 1_000_000_000);
    step(&mut engine, &mut snap, origin, 4);
    assert!(
        engine.findings.get("journal:pressure").unwrap()
            .summary
            .contains("reclaim")
    );
    block(&mut snap, "journal_low_on_space", 1);
    step(&mut engine, &mut snap, origin, 6);
    assert!(
        engine.findings.get("journal:pressure").unwrap()
            .summary
            .contains("space")
    );
    assert_eq!(
        engine.findings.get("journal:pressure").unwrap().confidence,
        Confidence::Observed
    );
}

#[test]
fn missing_journal_counters_are_not_zero_event_evidence() {
    let origin = 1_000 * SECOND;
    let mut engine = Diagnostics::default();
    let mut snap = snapshot();
    snap.blocked_stats
        .retain(|(name, _, _)| name != "journal_low_on_space");
    step(&mut engine, &mut snap, origin, 0);
    block(&mut snap, "journal_max_open", 2);
    step(&mut engine, &mut snap, origin, 2);
    let finding = engine.findings.get("journal:pressure").unwrap();
    assert_eq!(finding.summary, "Journal-pipeline pressure");
    assert!(
        finding
            .evidence
            .iter()
            .any(|s| s == "journal_low_on_space: unavailable or establishing baseline")
    );
    snap.blocked_stats.clear();
    step(&mut engine, &mut snap, origin, 4);
    assert_eq!(engine.findings.get("journal:pressure").unwrap().status, Status::Stale);
}

#[test]
fn idle_ewma_does_not_trigger_and_recent_journal_evidence_expires() {
    let origin = 1_000 * SECOND;
    let mut engine = Diagnostics::default();
    let mut snap = snapshot();
    snap.devices[0].diskstats_in_flight = 0;
    operation(&mut snap, "journal_flush_write", 100, 1_000_000_000);
    step(&mut engine, &mut snap, origin, 0);
    step(&mut engine, &mut snap, origin, 2);
    assert!(engine.findings.is_empty());
    block(&mut snap, "journal_max_open", 1);
    operation(&mut snap, "journal_flush_write", 101, 1_000_000_000);
    step(&mut engine, &mut snap, origin, 4);
    for secs in (6..=66).step_by(2) {
        step(&mut engine, &mut snap, origin, secs);
    }
    assert_eq!(engine.findings.get("journal:pressure").unwrap().status, Status::Resolved);
}

#[test]
fn occupancy_and_write_buffer_pressure_are_not_disk_space_diagnoses() {
    let origin = 1_000 * SECOND;
    let mut engine = Diagnostics::default();
    let mut snap = snapshot();
    snap.journal.entries = Some((90, 100));
    step(&mut engine, &mut snap, origin, 0);
    assert!(!engine.findings.contains_key("journal:pressure"));
    assert!(engine.findings.get("journal:entry-occupancy").unwrap().evidence[0].contains("not on-disk"));
    block(&mut snap, "write_buffer_full", 2);
    step(&mut engine, &mut snap, origin, 2);
    assert!(
        engine.findings.get("journal:write-buffer").unwrap()
            .action
            .contains("not an established remedy")
    );
}

#[test]
fn historic_errors_are_baselines_and_new_errors_expire_or_go_stale() {
    let origin = 1_000 * SECOND;
    let mut engine = Diagnostics::default();
    let mut snap = snapshot();
    snap.devices[0].diskstats_in_flight = 0;
    step(&mut engine, &mut snap, origin, 0);
    step(&mut engine, &mut snap, origin, 2);
    assert!(engine.findings.is_empty());
    snap.devices[0]
        .error_counts
        .as_mut()
        .unwrap()
        .insert("read", 103);
    step(&mut engine, &mut snap, origin, 4);
    assert!(engine.findings.get("device:member-1:errors").unwrap().evidence[0].contains("3 events"));
    let counts = snap.devices[0].error_counts.take();
    step(&mut engine, &mut snap, origin, 6);
    assert_eq!(
        engine.findings.get("device:member-1:errors").unwrap().status,
        Status::Stale
    );
    snap.devices[0].error_counts = counts;
    step(&mut engine, &mut snap, origin, 8);
    step(&mut engine, &mut snap, origin, 10);
    assert_eq!(
        engine.findings.get("device:member-1:errors").unwrap().status,
        Status::Resolved
    );
}

#[test]
fn counter_resets_and_missing_error_categories_do_not_create_new_errors() {
    let origin = 1_000 * SECOND;
    let mut engine = Diagnostics::default();
    let mut snap = snapshot();
    step(&mut engine, &mut snap, origin, 0);
    snap.devices[0]
        .error_counts
        .as_mut()
        .unwrap()
        .insert("read", 104);
    step(&mut engine, &mut snap, origin, 2);
    snap.devices[0]
        .error_counts
        .as_mut()
        .unwrap()
        .remove("read");
    step(&mut engine, &mut snap, origin, 4);
    assert_eq!(
        engine.findings.get("device:member-1:errors").unwrap().status,
        Status::Stale
    );
    snap.devices[0]
        .error_counts
        .as_mut()
        .unwrap()
        .insert("read", 1);
    step(&mut engine, &mut snap, origin, 6);
    step(&mut engine, &mut snap, origin, 8);
    assert_eq!(
        engine.findings.get("device:member-1:errors").unwrap().status,
        Status::Resolved
    );
}

#[test]
fn member_transitions_persist_until_recovery_and_baseline_existing_ro() {
    let origin = 1_000 * SECOND;
    let mut engine = Diagnostics::default();
    let mut snap = snapshot();
    step(&mut engine, &mut snap, origin, 0);
    snap.devices[0].allocation.state = Some("ro".into());
    step(&mut engine, &mut snap, origin, 2);
    step(&mut engine, &mut snap, origin, 4);
    assert_eq!(
        engine.findings.get("device:member-1:state").unwrap().status,
        Status::Active
    );
    assert_eq!(
        engine.findings.get("device:member-1:state").unwrap().severity,
        Severity::Critical
    );
    snap.devices[0].allocation.state = Some("rw".into());
    step(&mut engine, &mut snap, origin, 6);
    assert_eq!(
        engine.findings.get("device:member-1:state").unwrap().status,
        Status::Resolved
    );
    assert!(
        engine.findings.get("device:member-1:state").unwrap()
            .evidence
            .iter()
            .any(|s| s.starts_with("Recovery observed:"))
    );
    snap.devices[0].allocation.state = Some("ro".into());
    engine.update(
        "other-fs",
        &snap,
        origin + 8 * SECOND,
        2 * SECOND,
    );
    assert!(engine.findings.is_empty());
}

#[test]
fn restored_state_data_does_not_resolve_a_member_that_is_still_read_only() {
    let origin = 1_000 * SECOND;
    let mut engine = Diagnostics::default();
    let mut snap = snapshot();
    step(&mut engine, &mut snap, origin, 0);
    snap.devices[0].allocation.state = Some("ro".into());
    step(&mut engine, &mut snap, origin, 2);
    snap.devices[0].allocation.state = None;
    step(&mut engine, &mut snap, origin, 4);
    assert_eq!(
        engine.findings.get("device:member-1:state").unwrap().status,
        Status::Stale
    );
    snap.devices[0].allocation.state = Some("ro".into());
    step(&mut engine, &mut snap, origin, 6);
    step(&mut engine, &mut snap, origin, 8);
    assert_eq!(
        engine.findings.get("device:member-1:state").unwrap().status,
        Status::Active
    );
    assert_eq!(
        engine.findings.get("device:member-1:state").unwrap().first_seen,
        origin + 6 * SECOND
    );
}

#[test]
fn error_clustering_reports_members_without_claiming_a_shared_failure() {
    let origin = 1_000 * SECOND;
    let mut engine = Diagnostics::default();
    let mut snap = snapshot();
    let mut second = snap.devices[0].clone();
    second.member_uuid = Some("member-2".into());
    second.name = "nvme2n1".into();
    snap.devices.push(second);
    step(&mut engine, &mut snap, origin, 0);
    for d in &mut snap.devices {
        d.error_counts.as_mut().unwrap().insert("read", 101);
    }
    step(&mut engine, &mut snap, origin, 2);
    assert_eq!(
        engine.findings.get("devices:correlated-errors").unwrap().confidence,
        Confidence::PossibleCause
    );
    assert!(engine.findings.get("devices:correlated-errors").unwrap().evidence[0].contains("nvme2n1"));
    assert!(
        engine.findings.get("devices:correlated-errors").unwrap().evidence[1]
            .contains("does not establish simultaneous")
    );
}

#[test]
fn windows_are_time_based_bounded_and_reset_when_counters_decrease() {
    let origin = 1_000 * SECOND;
    for millis in [10, 500, 2000, 10000] {
        let mut window = CounterWindow::default();
        let mut last = None;
        for tick in 0..=(120_000 / millis) {
            last = window.observe(
                origin + (tick * millis) * 1_000_000,
                tick * millis,
                None,
                30 * SECOND,
            );
            assert!(window.buckets.len() <= 61);
        }
        let last = last.unwrap();
        assert!(float(last.seconds) <= 60.0);
        assert_eq!(last.events as f64 / float(last.seconds), 1000.0);
        assert!(
            window
                .observe(
                    origin + 122 * SECOND,
                    0,
                    None,
                    30 * SECOND
                )
                .is_none()
        );
        assert!(window.buckets.is_empty());
    }
}

#[test]
fn a_long_valid_interval_keeps_its_events_when_the_previous_bucket_expires() {
    let origin = 1_000 * SECOND;
    let mut window = CounterWindow::default();
    window.observe(origin, 0, None, WINDOW);
    window.observe(origin + 500 * 1_000_000, 0, None, WINDOW);
    let evidence = window
        .observe(origin + 60_500 * 1_000_000, 1, None, WINDOW)
        .unwrap();
    assert_eq!(evidence.events, 1);
    assert_eq!(float(evidence.seconds), 60.0);
}

#[test]
fn a_stall_is_reported_again_only_after_a_fresh_run_of_samples() {
    let id = "device:member-1:no-completions";
    let origin = 1_000 * SECOND;
    let mut engine = Diagnostics::default();
    let mut snap = snapshot();
    for secs in (0..=30).step_by(2) {
        step(&mut engine, &mut snap, origin, secs);
    }
    assert_eq!(engine.findings.get(id).unwrap().status, Status::Active);
    snap.devices[0].allocation.online = Some(false);
    step(&mut engine, &mut snap, origin, 32);
    assert_eq!(engine.findings.get(id).unwrap().status, Status::Stale);
    snap.devices[0].allocation.online = Some(true);
    for secs in (34..64).step_by(2) {
        step(&mut engine, &mut snap, origin, secs);
        assert_ne!(engine.findings.get(id).unwrap().status, Status::Active);
    }
    step(&mut engine, &mut snap, origin, 64);
    let finding = engine.findings.get(id).unwrap();
    assert_eq!(finding.status, Status::Active);
    assert_eq!(finding.first_seen, origin + 64 * SECOND);
    assert!(finding.evidence[0].contains("16 consecutive"));
}

#[test]
fn nothing_with_a_history_is_active_after_a_gap() {
    let origin = 1_000 * SECOND;
    let mut engine = Diagnostics::default();
    let mut snap = snapshot();
    let mut other = snap.devices[0].clone();
    other.member_uuid = Some("member-2".into());
    snap.devices.push(other);
    let counters = ["journal_low_on_space", "write_buffer_full", "allocate"];
    let ids = [
        "device:member-1:no-completions",
        "device:member-1:errors",
        "device:member-2:errors",
        "devices:correlated-errors",
        "journal:pressure",
        "journal:write-buffer",
        "allocator:pressure",
    ];
    for secs in (0..=30).step_by(2) {
        for name in counters {
            block(&mut snap, name, secs);
        }
        for d in &mut snap.devices {
            d.error_counts = Some(counts(&[("read", 100 + secs), ("write", 0)]));
        }
        step(&mut engine, &mut snap, origin, secs);
    }
    for id in ids {
        assert_eq!(engine.findings.get(id).unwrap().status, Status::Active, "{id}");
    }
    for name in counters {
        block(&mut snap, name, 500);
    }
    for d in &mut snap.devices {
        d.error_counts = Some(counts(&[("read", 500), ("write", 0)]));
    }
    step(&mut engine, &mut snap, origin, 50);
    for id in ids {
        assert_ne!(engine.findings.get(id).unwrap().status, Status::Active, "{id}");
    }
}

#[test]
fn a_journal_finding_is_resolved_only_by_all_its_counters() {
    for known in [true, false] {
        let origin = 1_000 * SECOND;
        let mut engine = Diagnostics::default();
        let mut snap = snapshot();
        if !known {
            snap.blocked_stats.retain(|(name, _, _)| name != "journal_max_open");
        }
        step(&mut engine, &mut snap, origin, 0);
        block(&mut snap, "journal_low_on_space", 1);
        step(&mut engine, &mut snap, origin, 2);
        let finding = engine.findings.get("journal:pressure").unwrap();
        assert_eq!(finding.status, Status::Active);
        assert_eq!(finding.summary, "Journal-space pressure");
        assert_eq!(finding.confidence, Confidence::Observed);
        for secs in (4..=70).step_by(2) {
            step(&mut engine, &mut snap, origin, secs);
        }
        assert_eq!(
            engine.findings.get("journal:pressure").unwrap().status,
            if known { Status::Resolved } else { Status::Stale }
        );
    }
}

#[test]
fn findings_start_with_their_filesystem() {
    let id = "journal:entry-occupancy";
    let origin = 1_000 * SECOND;
    let mut engine = Diagnostics::default();
    let mut snap = snapshot();
    snap.journal.entries = Some((90, 100));
    step(&mut engine, &mut snap, origin, 0);
    step(&mut engine, &mut snap, origin, 2);
    assert_eq!(engine.findings.get(id).unwrap().first_seen, origin);
    let now = origin + 4 * SECOND;
    snap.diskstats_sampled_at = Some(now);
    snap.collection_started_at = Some(now);
    engine.update("fs-2", &snap, now, 2 * SECOND);
    let finding = engine.findings.get(id).unwrap();
    assert_eq!(finding.status, Status::Active);
    assert_eq!(finding.first_seen, now);
    assert_eq!(engine.findings.len(), 1);
}

#[test]
fn the_bound_takes_the_oldest_inactive_findings_and_no_active_one() {
    let origin = 1_000 * SECOND;
    let mut engine = Diagnostics::default();
    let mut snap = snapshot();
    snap.journal.entries = Some((90, 100));
    step(&mut engine, &mut snap, origin, 0);
    for i in 0..130u64 {
        let id = format!("z{i:03}");
        // The later in the alphabet, the longer ago.
        let seen = origin - i * 1_000_000;
        engine.findings.insert(
            &id,
            Diagnostic {
                id: id.clone(),
                severity: Severity::Warning,
                confidence: Confidence::Observed,
                summary: String::new(),
                evidence: Vec::new(),
                action: String::new(),
                criteria: String::new(),
                first_seen: seen,
                last_seen: seen,
                status_since: seen,
                status: Status::Resolved,
            },
        );
    }
    step(&mut engine, &mut snap, origin, 2);
    assert_eq!(engine.findings.get("journal:entry-occupancy").unwrap().status, Status::Active);
    assert_eq!(engine.findings.len(), 129);
    assert!(engine.findings.contains_key("z127"));
    assert!(!engine.findings.contains_key("z128"));
    assert!(!engine.findings.contains_key("z129"));
}

#[test]
fn the_events_of_a_window_are_the_rise_since_a_reading() {
    let origin = 1_000 * SECOND;
    let mut window = CounterWindow::default();
    assert!(window.observe(origin, 7, None, 30 * SECOND).is_none());
    let first = window.observe(origin + 10 * SECOND, 9, None, 30 * SECOND).unwrap();
    assert_eq!((first.events, float(first.seconds)), (2, 10.0));
    let second = window.observe(origin + 30 * SECOND, 20, None, 30 * SECOND).unwrap();
    assert_eq!((second.events, float(second.seconds)), (13, 30.0));
    // What rose before the window is left out.
    for secs in [45, 60] {
        window.observe(origin + secs * SECOND, 20, None, 30 * SECOND);
    }
    let last = window.observe(origin + 75 * SECOND, 21, None, 30 * SECOND).unwrap();
    assert_eq!((last.events, float(last.seconds)), (1, 45.0));
    assert!(window.observe(origin + 80 * SECOND, 20, None, 30 * SECOND).is_none());
}

#[test]
fn the_mean_of_a_window_is_that_of_the_latest_rise() {
    let origin = 1_000 * SECOND;
    let gap = 30 * SECOND;
    let mut window = CounterWindow::default();
    window.observe(origin, 5, Some(900_000_000), gap);
    let idle = window.observe(origin + 2 * SECOND, 5, Some(900_000_000), gap).unwrap();
    assert_eq!((idle.events, idle.recent_ns), (0, None));
    assert!(!idle.slow());
    let fast = window.observe(origin + 4 * SECOND, 6, Some(1_000_000), gap).unwrap();
    assert_eq!(fast.recent_ns, Some(1_000_000));
    let still = window.observe(origin + 6 * SECOND, 6, Some(900_000_000), gap).unwrap();
    assert_eq!(still.recent_ns, Some(1_000_000));
    assert!(!still.slow());
    let slow = window.observe(origin + 8 * SECOND, 7, Some(200_000_000), gap).unwrap();
    assert_eq!(slow.recent_ns, Some(200_000_000));
    assert!(slow.slow());
}

#[test]
fn steps_of_an_update_can_be_taken_alone() {
    let id = "device:member-1:no-completions";
    let origin = 1_000 * SECOND;
    let gap = 6 * SECOND;
    let mut engine = Diagnostics::default();
    let mut snap = snapshot();
    for secs in (0..=30).step_by(2) {
        let now = origin + secs * SECOND;
        engine.io_progress(&snap.devices[0], "member-1", now, now, gap);
    }
    assert_eq!(engine.findings.get(id).unwrap().status, Status::Active);
    let now = origin + 32 * SECOND;
    engine.io_progress(&snap.devices[0], "member-1", now + 1, now, gap);
    assert_eq!(engine.findings.get(id).unwrap().status, Status::Stale);
    engine.journal(&snap, now, gap);
    assert!(!engine.findings.contains_key("journal:pressure"));
    block(&mut snap, "journal_low_on_space", 1);
    engine.journal(&snap, now + 2 * SECOND, gap);
    assert_eq!(
        engine.findings.get("journal:pressure").unwrap().summary,
        "Journal-space pressure"
    );
}

#[test]
fn old_texts_leave_every_finding_stale_but_those_on_completions() {
    let origin = 1_000 * SECOND;
    let mut engine = Diagnostics::default();
    let mut snap = snapshot();
    snap.journal.entries = Some((90, 100));
    for secs in (0..=30).step_by(2) {
        snap.devices[0].error_counts = Some(counts(&[("read", 100 + secs), ("write", 0)]));
        if secs == 30 {
            snap.devices[0].allocation.state = Some("ro".into());
        }
        step(&mut engine, &mut snap, origin, secs);
    }
    let texts = ["device:member-1:errors", "device:member-1:state", "journal:entry-occupancy"];
    for id in texts {
        assert_eq!(engine.findings.get(id).unwrap().status, Status::Active, "{id}");
    }
    let now = origin + 32 * SECOND;
    snap.diskstats_sampled_at = Some(now);
    snap.collection_started_at = Some(now - 10 * SECOND);
    engine.update("fs-1", &snap, now, 2 * SECOND);
    for id in texts {
        assert_eq!(engine.findings.get(id).unwrap().status, Status::Stale, "{id}");
    }
    assert_eq!(
        engine.findings.get("device:member-1:no-completions").unwrap().status,
        Status::Active
    );
    // Once the texts are recent again, a recovery resolves what went stale.
    snap.devices[0].allocation.state = Some("rw".into());
    step(&mut engine, &mut snap, origin, 34);
    let state = engine.findings.get("device:member-1:state").unwrap();
    assert_eq!(state.status, Status::Resolved);
    assert!(state.evidence.iter().any(|e| e.starts_with("Recovery observed:")));
}
