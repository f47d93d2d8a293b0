use nasty_top::advisor::{copygc_stall_pressure, evaluate, select_proposal, Proposal};
use nasty_top::app::{toggled_focus, App, Focus, StallEvent};
use nasty_top::double::Double;
use nasty_top::interval::parse_interval;
use nasty_top::keys::{Key, KeyPress};
use nasty_top::sysfs::{BcachefsFs, FsSnapshot, SECOND};
use nasty_top::targets::Severity;
use nasty_top::tick::btree_read_stalled;

const NOW: u64 = 1_000 * SECOND;

fn float(x: Double) -> f64 {
    f64::from_bits(x.bits)
}

fn test_fs() -> BcachefsFs {
    BcachefsFs {
        uuid: "test".into(),
        mount_point: "/".into(),
        fs_name: "test".into(),
        sysfs: "/nonexistent-nasty-top-test".into(),
    }
}

fn test_app() -> App {
    App::new(vec![test_fs()], 0, FsSnapshot::default(), Vec::new(), "", NOW)
}

fn press(app: &mut App, key: Key) {
    app.handle_key(KeyPress { key, control: false }, NOW);
}

#[test]
fn a_muted_high_priority_finding_does_not_hide_other_constraints() {
    let proposals = vec![
        Proposal {
            id: "metadata:capacity".into(),
            severity: Severity::Critical,
            reason: "capacity".into(),
            detail: String::new(),
            criteria: "test criterion".into(),
            evidence: vec!["test input".into()],
            command: None,
        },
        Proposal {
            id: "metadata:gc:31".into(),
            severity: Severity::Warning,
            reason: "pressure".into(),
            detail: String::new(),
            criteria: "test criterion".into(),
            evidence: vec!["test input".into()],
            command: None,
        },
    ];
    let selected = select_proposal(proposals, &vec!["metadata:capacity".to_string()]).unwrap();
    assert_eq!(selected.id, "metadata:gc:31");
    assert!(selected.command.is_none());
}

#[test]
fn gc_stall_hint_reports_correlation_without_disabling_collection() {
    let mut app = test_app();
    app.current.options.insert("copygc_enabled", "1".into());
    app.current.background = vec![("copygc".into(), "working".into())];
    app.stall_events.push(StallEvent {
        time: NOW,
        device: "fs".into(),
        direction: "write",
        detail: "slow".into(),
    });
    let proposal = evaluate(&app, NOW).unwrap();
    assert_eq!(proposal.id, "copygc-pressure");
    assert!(proposal.command.is_none());
    assert!(proposal.reason.contains("coincide"));
    assert!(proposal.criteria.contains("copygc_enabled=1"));
    assert!(proposal
        .evidence
        .iter()
        .any(|s| s.contains("recent write-direction events=1")));
    app.proposal = Some(proposal);
    app.dismiss_permanent(NOW);
    assert!(app.is_dismissed("copygc-pressure", NOW));
    app.fs.uuid = "another-fs".into();
    assert!(!app.is_dismissed("copygc-pressure", NOW));
}

#[test]
fn copygc_hint_requires_enabled_working_copygc_and_write_stalls() {
    for state in ["off", "idle", "enabled"] {
        assert!(!copygc_stall_pressure(
            true,
            true,
            &vec![("copygc".into(), state.into())]
        ));
    }
    let background = vec![("copygc".into(), "working".into())];
    assert!(copygc_stall_pressure(true, true, &background));
    assert!(!copygc_stall_pressure(false, true, &background));
    assert!(!copygc_stall_pressure(true, false, &background));
    assert!(!copygc_stall_pressure(
        true,
        true,
        &vec![("rebalance".into(), "working".into())]
    ));
}

#[test]
fn hidden_options_panel_cannot_receive_focus() {
    assert_eq!(toggled_focus(false, Focus::Metrics), Focus::Metrics);
    assert_eq!(toggled_focus(false, Focus::Tuning), Focus::Metrics);
    assert_eq!(toggled_focus(true, Focus::Metrics), Focus::Tuning);
    assert_eq!(toggled_focus(true, Focus::Tuning), Focus::Metrics);
}

fn snapshot_with_btree_reads(count: u64, recent_us: f64) -> FsSnapshot {
    FsSnapshot {
        btree_read_count: count,
        recent_btree_read_us: Double { bits: recent_us.to_bits() },
        ..FsSnapshot::default()
    }
}

#[test]
fn btree_stall_requires_new_reads_and_high_latency() {
    let previous = snapshot_with_btree_reads(10, 0.0);
    let stale_latency = snapshot_with_btree_reads(10, 75_000.0);
    let low_latency = snapshot_with_btree_reads(11, 50_000.0);
    let stalled = snapshot_with_btree_reads(11, 50_001.0);

    assert!(!btree_read_stalled(&previous, &stale_latency));
    assert!(!btree_read_stalled(&previous, &low_latency));
    assert!(btree_read_stalled(&previous, &stalled));
}

#[test]
fn why_hint_keeps_the_selected_inputs_frozen_and_has_its_own_navigation() {
    let mut app = test_app();
    app.proposal = Some(Proposal {
        id: "gc".into(),
        reason: "GC pressure".into(),
        severity: Severity::Warning,
        detail: "Inspect allocation".into(),
        command: None,
        criteria: "calculated_wait <= 0".into(),
        evidence: vec!["calculated_wait=-292M".into()],
    });
    press(&mut app, Key::Char('w'));
    app.proposal.as_mut().unwrap().evidence[0] = "calculated_wait=10G".into();
    assert_eq!(
        app.inspected_hint.as_ref().unwrap().evidence[0],
        "calculated_wait=-292M"
    );
    press(&mut app, Key::PageDown);
    assert_eq!(app.hint_scroll, 10);
    assert_eq!(app.view_scroll, 0);
    press(&mut app, Key::Home);
    assert_eq!(app.hint_scroll, 0);
    press(&mut app, Key::Esc);
    assert!(app.inspected_hint.is_none());
    app.proposal = None;
    app.show_help = true;
    press(&mut app, Key::Char('w'));
    assert!(app.inspected_hint.is_none());
    assert!(!app.show_help);
    assert!(app
        .status_msg
        .as_deref()
        .unwrap()
        .contains("No current hint"));
}

#[test]
fn advisor_navigation_is_exclusive_with_other_detail_views() {
    let mut app = test_app();
    app.show_counters = true;
    press(&mut app, Key::Char('a'));
    assert!(app.show_advisor);
    assert!(!app.show_counters);
    press(&mut app, Key::Char('j'));
    assert_eq!(app.view_scroll, 1);
    press(&mut app, Key::Char('v'));
    assert!(app.show_targets);
    assert!(!app.show_advisor);
    assert_eq!(app.view_scroll, 0);
}

#[test]
fn interval_must_be_finite_positive_and_bounded() {
    assert_eq!(parse_interval("0.25").map(float), Ok(0.25));
    assert_eq!(parse_interval("86400").map(float), Ok(86_400.0));

    for invalid in ["0", "-1", "1e-300", "NaN", "inf", "86401", "not-a-number"] {
        assert!(parse_interval(invalid).is_err(), "accepted {invalid}");
    }

    assert!(parse_interval("0").is_err());
    assert_eq!(float(parse_interval("0.25").unwrap()), 0.25);
}
