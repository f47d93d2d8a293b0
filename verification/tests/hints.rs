use nasty_top::advisor::{evaluate, select_proposal, snapshot_proposals, Proposal};
use nasty_top::app::{App, Focus, HintStatus, StallEvent};
use nasty_top::details::{advisor_lines, explain_lines, target_lines};
use nasty_top::diagnostics::{Confidence, Diagnostic, Status};
use nasty_top::double::Double;
use nasty_top::keys::{Action, Detail, Key, KeyPress};
use nasty_top::rows::findings_line;
use nasty_top::sysfs::{BcachefsFs, DeviceInfo, FsSnapshot, ProcessIo, TimeStatFull, SECOND};
use nasty_top::targets::{Finding, MemberAllocation, Severity, TargetReport};
use nasty_top::tick::{format_duration_us, sum_devices};
use nasty_top::tuning::{hidden_names, TuningState};
use nasty_top::metrics::DeviceRate;

const NOW: u64 = 1_000 * SECOND;

fn double(x: f64) -> Double {
    Double { bits: x.to_bits() }
}

fn float(x: Double) -> f64 {
    f64::from_bits(x.bits)
}

fn fs(uuid: &str) -> BcachefsFs {
    BcachefsFs {
        uuid: uuid.into(),
        mount_point: format!("/fs/{uuid}"),
        fs_name: uuid.into(),
        sysfs: format!("/sys/{uuid}"),
    }
}

fn app_on(uuids: &[&str]) -> App {
    let all = uuids.iter().map(|u| fs(u)).collect();
    App::new(all, 0, FsSnapshot::default(), Vec::new(), "", NOW)
}

fn hint(id: &str, severity: Severity) -> Proposal {
    Proposal {
        reason: format!("reason {id}"),
        id: id.into(),
        severity,
        detail: format!("detail {id}"),
        criteria: format!("criteria {id}"),
        evidence: vec![format!("evidence {id}")],
        command: None,
    }
}

fn finding(id: &str, severity: Severity, status: Status) -> Diagnostic {
    Diagnostic {
        id: id.into(),
        severity,
        confidence: Confidence::Observed,
        summary: format!("summary {id}"),
        evidence: vec![format!("evidence {id}")],
        action: format!("action {id}"),
        criteria: String::new(),
        first_seen: NOW - 20 * SECOND,
        last_seen: NOW - 3 * SECOND,
        status_since: NOW - 2 * SECOND,
        status,
    }
}

fn report(findings: Vec<Finding>) -> TargetReport {
    TargetReport {
        role: "metadata",
        target: "ssd".into(),
        members: vec!["sda".into(), "sdb".into()],
        eligible_members: None,
        eligible_devices: Vec::new(),
        capacity_bytes: None,
        free_bytes: Some(1 << 30),
        findings,
        notes: vec!["note".into()],
    }
}

fn target_finding(id: &str, severity: Severity) -> Finding {
    Finding {
        id: id.into(),
        severity,
        summary: format!("summary {id}"),
        detail: format!("detail {id}"),
        criteria: String::new(),
        evidence: Vec::new(),
    }
}

fn press(app: &mut App, key: Key) -> Action {
    app.handle_key(KeyPress { key, control: false }, NOW)
}

fn device(name: &str, reads: u64, errors: u64) -> DeviceInfo {
    DeviceInfo {
        index: 1,
        name: name.into(),
        io_done_read: reads,
        io_errors: errors,
        ..DeviceInfo::default()
    }
}

fn busy(reads: u64, read_us: f64) -> FsSnapshot {
    FsSnapshot {
        devices: vec![device("sda", reads, 3)],
        recent_data_read_us: double(read_us),
        ..FsSnapshot::default()
    }
}

#[test]
fn the_first_of_the_gravest_hints_is_chosen() {
    let list = || {
        vec![
            hint("a", Severity::Warning),
            hint("b", Severity::Critical),
            hint("c", Severity::Critical),
        ]
    };
    assert_eq!(select_proposal(list(), &Vec::new()).unwrap().id, "b");
    assert_eq!(select_proposal(list(), &vec!["b".into()]).unwrap().id, "c");
    assert_eq!(select_proposal(list(), &vec!["b".into(), "c".into()]).unwrap().id, "a");
    let all = vec!["a".to_string(), "b".into(), "c".into()];
    assert!(select_proposal(list(), &all).is_none());
    assert!(select_proposal(Vec::new(), &Vec::new()).is_none());
}

#[test]
fn windowed_findings_precede_those_of_the_snapshot() {
    let mut app = app_on(&["one"]);
    app.target_reports = vec![report(vec![target_finding("t", Severity::Warning)])];
    assert_eq!(evaluate(&app, NOW).unwrap().id, "t");
    app.diagnostics.findings.insert("d", finding("d", Severity::Warning, Status::Active));
    assert_eq!(evaluate(&app, NOW).unwrap().id, "d");
    app.target_reports = vec![report(vec![target_finding("t", Severity::Critical)])];
    assert_eq!(evaluate(&app, NOW).unwrap().id, "t");
    app.diagnostics.findings.insert("d", finding("d", Severity::Critical, Status::Stale));
    app.target_reports = Vec::new();
    assert!(evaluate(&app, NOW).is_none());
}

#[test]
fn a_write_stall_next_to_copygc_is_recent_for_a_minute() {
    let mut app = app_on(&["one"]);
    app.current.options.insert("copygc_enabled", "1".into());
    app.current.background = vec![("copygc".into(), "working".into())];
    app.stall_events = vec![
        StallEvent { time: NOW, device: "fs".into(), direction: "write", detail: "slow".into() },
        StallEvent { time: NOW, device: "fs".into(), direction: "read", detail: "slow".into() },
    ];
    let seen = snapshot_proposals(&app, NOW + 1_500_000_000);
    assert_eq!(seen.len(), 1);
    assert_eq!(
        seen[0].evidence,
        [
            "copygc_enabled=1; state=working; recent write-direction events=1",
            "Event age 1.500000s < 60s, fs: slow",
        ]
    );
    assert_eq!(snapshot_proposals(&app, NOW + 60 * SECOND - 1).len(), 1);
    assert!(snapshot_proposals(&app, NOW + 60 * SECOND).is_empty());
    assert!(snapshot_proposals(&app, NOW - 1).is_empty());
}

#[test]
fn a_mute_ends_after_two_minutes_and_holds_in_one_filesystem() {
    let mut app = app_on(&["one", "two"]);
    app.proposal = Some(hint("x", Severity::Warning));
    app.dismiss_proposal(NOW);
    assert!(app.proposal.is_none());
    assert_eq!(app.status_msg.as_deref(), Some("Muted for 2 minutes"));
    assert!(app.is_dismissed("x", NOW));
    assert!(app.is_dismissed("x", NOW + 120 * SECOND - 1));
    assert!(!app.is_dismissed("x", NOW + 120 * SECOND));
    assert!(!app.is_dismissed("y", NOW));
    app.fs.uuid = "two".into();
    assert!(!app.is_dismissed("x", NOW));
}

#[test]
fn a_mute_for_good_lasts_until_it_is_cleared() {
    let mut app = app_on(&["one"]);
    for _ in 0..2 {
        app.proposal = Some(hint("x", Severity::Warning));
        app.dismiss_permanent(NOW);
    }
    assert_eq!(
        app.status_msg.as_deref(),
        Some("Won't hint about x again (press C to clear)")
    );
    assert_eq!(app.dismissed_permanent.len(), 1);
    assert!(app.is_dismissed("x", NOW + 1_000_000 * SECOND));
    app.clear_dismissals(NOW);
    assert_eq!(app.status_msg.as_deref(), Some("Cleared 1 permanent dismissals"));
    assert!(!app.is_dismissed("x", NOW));
}

#[test]
fn muting_hides_no_evidence_from_the_detail_views() {
    let mut app = app_on(&["one"]);
    app.diagnostics.findings.insert("d", finding("d", Severity::Warning, Status::Active));
    app.target_reports = vec![report(vec![target_finding("t", Severity::Critical)])];
    let before = advisor_lines(&app, NOW);
    app.proposal = evaluate(&app, NOW);
    app.dismiss_permanent(NOW);
    assert_eq!(advisor_lines(&app, NOW), before);
    assert_eq!(findings_line(&app.target_reports).as_deref(), Some("targets: 1 finding"));
    assert_eq!(
        before,
        [
            "[active for 2s] WARNING, observed: summary d",
            "    evidence d",
            "    first seen 20s ago, last seen 3s ago",
            "    next: action d",
            "[snapshot] CRITICAL: summary t",
            "    next: detail t",
        ]
    );
    let mut sda = device("sda", 0, 0);
    sda.allocation = MemberAllocation {
        capacity_bytes: Some(1 << 40),
        free_bytes: Some(1 << 30),
        btree_bytes: Some(3 << 19),
        fragmented_bytes: Some(512),
        state: Some("rw".into()),
        durability: Some(1),
        data_allowed: Some(vec!["journal".into(), "btree".into()]),
        online: Some(true),
    };
    app.current.devices = vec![sda, device("sdb", 0, 0)];
    app.current.copygc.needs_gc.insert("sda", true);
    assert_eq!(
        target_lines(&app.target_reports, &app.current),
        [
            "metadata -> ssd: eligible ?/2, capacity ?, free 1.00 GiB",
            "  sda: state rw, online true, durability 1, data journal,btree, capacity 1.00 TiB, \
             free 1.00 GiB, btree 1.50 MiB, fragmented 512 B, needs GC true",
            "  sdb: state ?, online ?, durability ?, data ?, capacity ?, free ?, btree ?, \
             fragmented ?, needs GC ?",
            "  CRITICAL: summary t",
            "    detail t",
            "    note",
        ]
    );
    assert_eq!(advisor_lines(&app_on(&["one"]), NOW), ["No findings"]);
    assert_eq!(target_lines(&Vec::new(), &app.current), ["No targets configured"]);
    app.current.devices.clear();
    assert_eq!(target_lines(&app.target_reports, &app.current)[1], "  sda: ?");
}

#[test]
fn an_explanation_gives_the_rule_and_what_was_measured() {
    assert_eq!(
        explain_lines(&hint("x", Severity::Warning)),
        [
            "WARNING: reason x",
            "Rule: criteria x",
            "Measured:",
            "    evidence x",
            "Next: detail x",
        ]
    );
    let bare = Proposal {
        criteria: String::new(),
        evidence: Vec::new(),
        ..hint("x", Severity::Critical)
    };
    assert_eq!(explain_lines(&bare), ["CRITICAL: reason x", "Next: detail x"]);
}

#[test]
fn a_hint_stays_fifteen_seconds_and_says_that_it_is_over() {
    let mut app = app_on(&["one"]);
    app.proposal = Some(hint("snap", Severity::Warning));
    app.proposal_first_shown = Some(NOW);
    app.tick(FsSnapshot::default(), NOW + 2 * SECOND, None);
    assert_eq!(app.hint_status, HintStatus::LastObserved);
    assert_eq!(app.hint_line().as_deref(), Some("Last observed: reason snap"));
    app.tick(FsSnapshot::default(), NOW + 15 * SECOND - 1, None);
    assert!(app.proposal.is_some());
    app.tick(FsSnapshot::default(), NOW + 15 * SECOND, None);
    assert!(app.proposal.is_none());
    assert_eq!(app.hint_line(), None);
    app.proposal = Some(hint("x", Severity::Warning));
    for (status, text) in [
        (HintStatus::Current, "reason x"),
        (HintStatus::Resolved, "Resolved: reason x"),
        (HintStatus::Stale, "Stale: reason x"),
    ] {
        app.hint_status = status;
        assert_eq!(app.hint_line().as_deref(), Some(text));
    }
}

#[test]
fn a_sample_computes_rates_charts_and_stalls() {
    let mut app = app_on(&["one"]);
    app.tick(busy(0, 300_000.0), NOW + SECOND, None);
    assert!(app.stall_events.is_empty()); // nothing to measure against
    app.tick(busy(4_000, 300_000.0), NOW + 3 * SECOND, None);
    assert_eq!(float(app.sample_interval), 2.0);
    assert_eq!(float(app.rates.as_ref().unwrap().devices[0].read_bytes_sec), 2_000.0);
    let reads: Vec<f64> = app.history.get("io_read_bytes_sec").into_iter().map(float).collect();
    assert_eq!(reads, [0.0, 2_000.0]);
    assert_eq!(app.stall_events.len(), 1);
    assert_eq!(app.stall_events[0].detail, "data_read recent mean 300.0ms");
    assert_eq!(app.stall_events[0].direction, "read");
    // The mean does not decay while idle: it neither stalls nor charts.
    app.tick(busy(4_000, 300_000.0), NOW + 5 * SECOND, None);
    assert_eq!(app.stall_events.len(), 1);
    assert_eq!(app.history.get("avg_read_latency_us").last().map(|x| float(*x)), Some(0.0));
}

#[test]
fn at_most_ten_stalls_are_kept_and_none_beyond_a_minute() {
    let mut app = app_on(&["one"]);
    for i in 0..15 {
        app.tick(busy(1_000 * (i + 1), 300_000.0), NOW + (i + 1) * SECOND, None);
        assert!(app.stall_events.len() <= 10);
    }
    assert_eq!(app.stall_events.len(), 10);
    assert_eq!(app.stall_events[0].time, NOW + 15 * SECOND);
    app.tick(busy(15_000, 0.0), NOW + 70 * SECOND, None);
    assert!(app.stall_events.iter().all(|e| NOW + 70 * SECOND - e.time < 60 * SECOND));
    app.tick(busy(15_000, 0.0), NOW + 75 * SECOND, None);
    assert!(app.stall_events.is_empty());
}

#[test]
fn a_journal_that_fills_rapidly_is_a_stall() {
    let fill = |dirty| FsSnapshot { journal_fill: (dirty, 10_000), ..FsSnapshot::default() };
    let mut app = app_on(&["one"]);
    app.tick(fill(6_000), NOW + SECOND, None);
    app.tick(fill(7_000), NOW + 2 * SECOND, None); // not more than a thousand
    assert!(app.stall_events.is_empty());
    app.tick(fill(8_001), NOW + 3 * SECOND, None);
    assert_eq!(app.stall_events[0].device, "journal");
    assert_eq!(app.stall_events[0].detail, "filling rapidly: 80%");
}

#[test]
fn deltas_list_what_moved_first() {
    let stat = |name: &str, count| TimeStatFull { name: name.into(), count, ..Default::default() };
    let snap = |n: u64| {
        let mut s = FsSnapshot {
            blocked_stats: vec![
                ("a".into(), 5, Double::zero()),
                ("b".into(), 5 + n, Double::zero()),
            ],
            all_time_stats: vec![stat("alpha", 1), stat("blocked_x", 1), stat("zeta", 1 + n)],
            cpu_iowait: n,
            cpu_total: 4 * n,
            ..FsSnapshot::default()
        };
        s.counters.insert("x", 10);
        s.counters.insert("y", 10 + n);
        s
    };
    let mut app = app_on(&["one"]);
    app.tick(snap(0), NOW + SECOND, None);
    app.tick(snap(3), NOW + 2 * SECOND, None);
    assert_eq!(app.blocked_deltas[0].0, "b");
    assert_eq!(app.blocked_deltas[0].1, 3);
    let names: Vec<&str> = app.time_stats_view.iter().map(|t| t.name.as_str()).collect();
    assert_eq!(names, ["zeta", "blocked_x", "alpha"]);
    assert_eq!(app.counter_deltas[0], ("y".to_string(), 3, 13));
    assert_eq!(app.counter_deltas[1], ("x".to_string(), 0, 10));
    assert_eq!(float(app.iowait_pct), 25.0);
    app.tick(snap(3), NOW + 3 * SECOND, None);
    assert_eq!(float(app.iowait_pct), 0.0);
}

#[test]
fn errors_at_first_sight_stay_the_baseline() {
    let with = |errors| FsSnapshot { devices: vec![device("sda", 0, errors)], ..FsSnapshot::default() };
    let mut app = app_on(&["one"]);
    app.tick(with(7), NOW + SECOND, None);
    app.tick(with(9), NOW + 2 * SECOND, None);
    assert_eq!(app.initial_errors.get("sda"), Some(&7));
}

#[test]
fn the_selected_row_follows_a_shrinking_table() {
    let with = |n: u32| FsSnapshot {
        devices: (0..n)
            .map(|i| DeviceInfo { index: i, name: format!("sd{i}"), ..DeviceInfo::default() })
            .collect(),
        ..FsSnapshot::default()
    };
    let mut app = app_on(&["one"]);
    app.tick(with(5), NOW + SECOND, None);
    for _ in 0..9 {
        app.scroll_devices_down();
    }
    assert_eq!(app.device_scroll, 4);
    app.tick(with(2), NOW + 2 * SECOND, None);
    assert_eq!(app.device_scroll, 1);
    app.scroll_devices_up();
    app.scroll_devices_up();
    assert_eq!(app.device_scroll, 0);
}

#[test]
fn a_message_fades_only_after_it_was_shown() {
    let mut app = app_on(&["one"]);
    app.set_status("hello", NOW);
    app.tick(FsSnapshot::default(), NOW + 10 * SECOND, None);
    assert_eq!(app.status_msg.as_deref(), Some("hello"));
    app.status_msg_rendered = true;
    app.tick(FsSnapshot::default(), NOW + 12 * SECOND, None);
    assert_eq!(app.status_msg, None);
}

#[test]
fn processes_are_sampled_while_they_are_shown() {
    let list = |bytes| vec![ProcessIo { pid: 7, name: "dd".into(), read_bytes: bytes, write_bytes: 0 }];
    let mut app = app_on(&["one"]);
    app.tick(FsSnapshot::default(), NOW + SECOND, Some(list(0)));
    assert!(app.process_rates.is_empty());
    assert!(matches!(press(&mut app, Key::Char('p')), Action::SampleProcesses));
    app.set_processes(list(1_000));
    app.tick(FsSnapshot::default(), NOW + 2 * SECOND, Some(list(3_000)));
    assert_eq!(float(app.process_rates[0].read_bytes_sec), 2_000.0);
    assert!(matches!(press(&mut app, Key::Char('p')), Action::Nothing));
}

#[test]
fn control_c_quits_even_while_an_option_is_edited() {
    for c in ['c', 'C'] {
        let mut app = app_on(&["one"]);
        app.show_options = true;
        app.tuning.editing = true;
        app.handle_key(KeyPress { key: Key::Char(c), control: true }, NOW);
        assert!(app.should_quit);
    }
}

fn editing_app() -> App {
    let mut snap = FsSnapshot::default();
    snap.options.insert("b", "2".into());
    snap.options.insert("a", "1".into());
    snap.options.insert("secret", "0".into());
    let mut app = App::new(vec![fs("one")], 0, snap, Vec::new(), "# none\n secret \n\n", NOW);
    press(&mut app, Key::Char('o'));
    press(&mut app, Key::Tab);
    app
}

#[test]
fn an_edit_takes_the_keys_and_asks_for_a_write() {
    let mut app = editing_app();
    assert_eq!(app.tuning.option_names, ["a", "b"]);
    assert_eq!(app.focus, Focus::Tuning);
    press(&mut app, Key::Down);
    press(&mut app, Key::Down);
    assert_eq!(app.tuning.selected_name(), Some("b"));
    press(&mut app, Key::Enter);
    assert_eq!(app.tuning.edit_buf, "2");
    press(&mut app, Key::Backspace);
    press(&mut app, Key::Backspace);
    for c in "q4 ".chars() {
        press(&mut app, Key::Char(c));
    }
    assert!(!app.should_quit);
    match press(&mut app, Key::Enter) {
        Action::Commit(name, value) => assert_eq!((name.as_str(), value.as_str()), ("b", "q4")),
        other => panic!("{other:?}"),
    }
    app.finish_edit(Err("denied".into()), NOW);
    assert_eq!(app.status_msg.as_deref(), Some("Error: denied"));
    assert_eq!(app.tuning.edit_buf, "q4 ");
    assert!(!app.tuning.editing);
    press(&mut app, Key::Enter);
    app.finish_edit(Ok(()), NOW);
    assert_eq!(app.status_msg.as_deref(), Some("Set b = 2"));
    assert_eq!(app.tuning.edit_buf, "");
}

#[test]
fn escape_and_closing_the_panel_cancel_an_edit() {
    let mut app = editing_app();
    press(&mut app, Key::Enter);
    press(&mut app, Key::Esc);
    assert!(!app.tuning.editing);
    press(&mut app, Key::Char('o'));
    assert!(!app.show_options);
    assert_eq!(app.focus, Focus::Metrics);
    press(&mut app, Key::Tab);
    assert_eq!(app.focus, Focus::Metrics);
}

#[test]
fn an_edit_takes_keys_with_control_but_for_the_one_that_quits() {
    let mut app = editing_app();
    press(&mut app, Key::Enter);
    assert!(app.tuning.editing);
    for key in [Key::Char('q'), Key::Char('g'), Key::Char('f'), Key::Tab] {
        let action = app.handle_key(KeyPress { key, control: true }, NOW);
        assert!(matches!(action, Action::Nothing));
        assert!(!app.should_quit);
        assert!(app.tuning.editing);
        assert_eq!(app.focus, Focus::Tuning);
    }
    app.handle_key(KeyPress { key: Key::Char('c'), control: true }, NOW);
    assert!(app.should_quit);
}

#[test]
fn a_mute_holds_beside_others_and_ends_by_itself() {
    let mut app = app_on(&["one"]);
    app.proposal = Some(hint("y", Severity::Warning));
    app.dismiss_permanent(NOW);
    app.proposal = Some(hint("x", Severity::Warning));
    app.dismiss_proposal(NOW);
    app.proposal = Some(hint("x", Severity::Warning));
    app.dismiss_proposal(NOW + 60 * SECOND);
    assert!(app.is_dismissed("x", NOW + 180 * SECOND - 1));
    assert!(!app.is_dismissed("x", NOW + 180 * SECOND));
    app.proposal = Some(hint("y", Severity::Warning));
    app.dismiss_proposal(NOW);
    assert!(app.is_dismissed("y", NOW + 500 * SECOND));
}

#[test]
fn an_edit_without_a_selection_is_an_error() {
    let mut app = editing_app();
    app.tuning.option_names = Vec::new();
    app.tuning.editing = true;
    assert!(matches!(press(&mut app, Key::Enter), Action::Nothing));
    assert_eq!(app.status_msg.as_deref(), Some("Error: no option selected"));
    assert!(!app.tuning.editing);
}

#[test]
fn options_are_listed_once_in_order_and_none_is_left_out() {
    let mut options = FsSnapshot::default().options;
    for name in ["verbose", "a10", "promote_target", "a2", "verbose", "a"] {
        options.insert(name, String::from("1"));
    }
    let tuning = TuningState::new(&options, "promote_target\n");
    assert_eq!(tuning.option_names, ["a", "a10", "a2", "verbose"]);
}

#[test]
fn hidden_options_are_not_listed_and_a_selection_stays_on_the_list() {
    assert_eq!(hidden_names(" a \n#b\n\nc"), ["a", "c"]);
    let mut app = editing_app();
    app.tuning.selected = 1;
    let mut fewer = FsSnapshot::default();
    fewer.options.insert("a", "1".into());
    fewer.options.insert("secret", "1".into());
    app.tick(fewer, NOW + SECOND, None);
    assert_eq!(app.tuning.option_names, ["a"]);
    assert_eq!(app.tuning.selected, 0);
    let empty = TuningState::new(&FsSnapshot::default().options, "");
    assert_eq!(empty.selected_name(), None);
}

#[test]
fn a_toggle_asks_for_the_other_value() {
    let mut app = app_on(&["one"]);
    app.current.options.insert("copygc_enabled", " 1\n".into());
    match press(&mut app, Key::Char('g')) {
        Action::Toggle(name, value) => {
            assert_eq!((name.as_str(), value.as_str()), ("copygc_enabled", "0"))
        }
        other => panic!("{other:?}"),
    }
    match press(&mut app, Key::Char('r')) {
        Action::Toggle(name, value) => {
            assert_eq!((name.as_str(), value.as_str()), ("reconcile_enabled", "1"))
        }
        other => panic!("{other:?}"),
    }
    app.toggle_option("copygc_enabled", "0", Ok(()), NOW);
    assert_eq!(app.status_msg.as_deref(), Some("copygc_enabled = 0"));
    app.toggle_option("copygc_enabled", "0", Err("Failed to write x: no".into()), NOW);
    assert_eq!(app.status_msg.as_deref(), Some("Failed: Failed to write x: no"));
}

#[test]
fn at_most_one_detail_view_is_shown() {
    let mut app = app_on(&["one"]);
    for key in ['c', 't', 'p', 'v', 'a', 'c', 'a', 'a', 't', 't'] {
        press(&mut app, Key::Char(key));
        let shown = [
            app.show_counters,
            app.show_blocked,
            app.show_processes,
            app.show_targets,
            app.show_advisor,
        ];
        assert!(shown.iter().filter(|s| **s).count() <= 1, "{key}");
    }
    app.toggle_detail(Detail::Processes);
    app.view_scroll = 3;
    app.toggle_detail(Detail::Processes);
    assert_eq!(app.view_scroll, 3); // closing the list keeps the place
    app.toggle_detail(Detail::Counters);
    assert_eq!(app.view_scroll, 0);
}

#[test]
fn switching_goes_round_and_starts_anew() {
    let mut app = app_on(&["one", "two", "three"]);
    app.proposal = Some(hint("x", Severity::Warning));
    app.diagnostics.findings.insert("d", finding("d", Severity::Warning, Status::Active));
    app.stall_events.push(StallEvent {
        time: NOW,
        device: "fs".into(),
        direction: "read",
        detail: "slow".into(),
    });
    assert!(matches!(press(&mut app, Key::Char('f')), Action::SwitchFs));
    let mut seen = Vec::new();
    for _ in 0..3 {
        assert!(app.next_fs().is_some());
        assert!(app.switch_fs(FsSnapshot::default(), Vec::new(), NOW));
        seen.push(app.fs.uuid.clone());
    }
    assert_eq!(seen, ["two", "three", "one"]);
    assert_eq!(app.status_msg.as_deref(), Some("Switched to: one (1/3)"));
    assert!(app.proposal.is_none());
    assert!(app.diagnostics.findings.is_empty());
    assert!(app.stall_events.is_empty());
    let mut alone = app_on(&["one"]);
    assert!(matches!(press(&mut alone, Key::Char('f')), Action::Nothing));
    assert_eq!(alone.status_msg.as_deref(), Some("Only one filesystem mounted"));
    assert!(!alone.switch_fs(FsSnapshot::default(), Vec::new(), NOW));
    assert!(alone.next_fs().is_none());
}

#[test]
fn sorting_by_pressure_is_announced_and_starts_at_the_top() {
    let mut app = app_on(&["one"]);
    app.device_scroll = 2;
    press(&mut app, Key::Char('s'));
    assert!(app.sort_devices_by_pressure);
    assert_eq!(app.device_scroll, 0);
    assert_eq!(app.status_msg.as_deref(), Some("Devices sorted by pressure"));
    press(&mut app, Key::Char('s'));
    assert_eq!(app.status_msg.as_deref(), Some("Devices sorted by filesystem order"));
    press(&mut app, Key::Esc);
    assert_eq!(app.status_msg, None);
}

#[test]
fn durations_are_written_in_the_unit_that_suits_them() {
    assert_eq!(format_duration_us(double(999.0)), "999µs");
    assert_eq!(format_duration_us(double(1_000.0)), "1.0ms");
    assert_eq!(format_duration_us(double(50_001.0)), "50.0ms");
    assert_eq!(format_duration_us(double(1_500_000.0)), "1.5s");
}

#[test]
fn totals_add_all_devices() {
    let rate = |x: f64, active| DeviceRate {
        read_bytes_sec: double(x),
        write_iops: double(2.0 * x),
        write_active: active,
        ..DeviceRate::default()
    };
    let t = sum_devices(&vec![rate(1.5, false), rate(2.0, true)]);
    assert_eq!(float(t.read_bytes), 3.5);
    assert_eq!(float(t.write_iops), 7.0);
    assert!(!t.reads);
    assert!(t.writes);
}
