use nasty_top::double::Double;
use nasty_top::metrics::{compute_process_rates, compute_rates};
use nasty_top::sysfs::{DeviceInfo, FsSnapshot, ProcessIo, SECOND};
use nasty_top::targets::{ReconcileWork, TargetReport};
use nasty_top::trends::{headroom_input, HeadroomSummary};

const GIB: u64 = 1 << 30;

fn double(x: f64) -> Double {
    Double { bits: x.to_bits() }
}

fn float(x: Double) -> f64 {
    f64::from_bits(x.bits)
}

fn device(name: &str, read: u64) -> DeviceInfo {
    DeviceInfo {
        index: 1,
        name: name.into(),
        member_uuid: Some(format!("uuid-{name}")),
        io_done_read: read,
        ..DeviceInfo::default()
    }
}

fn snapshot(devices: Vec<DeviceInfo>) -> FsSnapshot {
    FsSnapshot {
        devices,
        ..FsSnapshot::default()
    }
}

#[test]
fn a_counter_that_fell_is_no_spike() {
    let before = snapshot(vec![device("sda", 1_000)]);
    let fell = compute_rates(&before, &snapshot(vec![device("sda", 10)]), double(2.0));
    assert_eq!(float(fell.devices[0].read_bytes_sec), 0.0);
    assert!(!fell.devices[0].read_active);
    let rose = compute_rates(&before, &snapshot(vec![device("sda", 3_000)]), double(2.0));
    assert_eq!(float(rose.devices[0].read_bytes_sec), 1_000.0);
    let none = compute_rates(&before, &snapshot(vec![device("sda", 3_000)]), double(0.0));
    assert!(none.devices.is_empty());
}

#[test]
fn the_busiest_processes_come_first_and_idle_ones_stay_while_they_exist() {
    let list = |reads: &[u64]| -> Vec<ProcessIo> {
        reads
            .iter()
            .enumerate()
            .map(|(i, n)| ProcessIo {
                pid: i as u32,
                name: format!("p{i}"),
                read_bytes: *n,
                write_bytes: 0,
            })
            .collect()
    };
    let start = list(&[0, 0, 0]);
    let busy = compute_process_rates(&start, &list(&[10, 30, 20]), double(1.0), 2, &Vec::new());
    let pids: Vec<u32> = busy.iter().map(|p| p.pid).collect();
    assert_eq!(pids, [1, 2]);
    let at_rest = list(&[10, 30, 20]);
    let rest = compute_process_rates(&at_rest, &at_rest, double(1.0), 2, &busy);
    assert_eq!(rest.len(), 2);
    assert!(rest.iter().all(|p| float(p.read_bytes_sec) == 0.0));
    let gone = compute_process_rates(&at_rest, &Vec::new(), double(1.0), 2, &rest);
    assert!(gone.is_empty());
    assert_eq!(compute_process_rates(&start, &at_rest, double(0.0), 2, &busy).len(), 2);
}

fn report() -> TargetReport {
    TargetReport {
        role: "metadata",
        target: "ssd".into(),
        members: vec!["sdb".into(), "sda".into()],
        eligible_members: Some(1),
        eligible_devices: vec!["sda".into()],
        capacity_bytes: Some(10 * GIB),
        free_bytes: Some(GIB),
        findings: Vec::new(),
        notes: Vec::new(),
    }
}

#[test]
fn headroom_is_read_under_its_members_and_options() {
    let mut snap = snapshot(vec![device("sda", 0), device("sdb", 0)]);
    snap.devices[0].allocation.capacity_bytes = Some(7);
    snap.allocation_sampled_at = Some(90 * SECOND);
    snap.options.insert("metadata_target", "a\"b".into());
    snap.copygc.needs_gc.insert("sda", true);
    snap.reconcile.work.push(ReconcileWork {
        category: "target".into(),
        data_bytes: Some(1),
        metadata_bytes: Some(2),
    });
    let (signature, point) = headroom_input(&snap, &report(), 100 * SECOND, 10 * SECOND).unwrap();
    let members = [("uuid-sda", Some(7u64), true), ("uuid-sdb", None, false)];
    let policy = [("metadata_target", "a\"b")];
    assert_eq!(signature, format!("{members:?}:{policy:?}"));
    assert_eq!(point.at, 90 * SECOND);
    assert_eq!(point.free, GIB);
    assert_eq!(point.pressure, Some(true));
    assert_eq!(point.backlog, Some(2));

    // Tables that are too old, more free than there is, and a member that is gone.
    assert!(headroom_input(&snap, &report(), 101 * SECOND, 10 * SECOND).is_none());
    let full = TargetReport {
        free_bytes: Some(11 * GIB),
        ..report()
    };
    assert!(headroom_input(&snap, &full, 100 * SECOND, 10 * SECOND).is_none());
    snap.devices.pop();
    assert!(headroom_input(&snap, &report(), 100 * SECOND, 10 * SECOND).is_none());
}

#[test]
fn the_indicators_of_a_summary_show_the_numbers_compared() {
    let summary = HeadroomSummary {
        samples: 10,
        seconds: double(120.5),
        first_free: 10 * GIB,
        last_free: 8 * GIB,
        pressure_samples: 9,
        unknown_pressure: 1,
        decreases: 5,
        increases: 1,
        recent_reference: Some((9 * GIB, 31_250_000_000)),
        direction: "falling",
        sampled_at: 0,
        gc_running_samples: 0,
        first_backlog: None,
        last_backlog: None,
        alert: true,
    };
    assert_eq!(
        summary.indicators(),
        [
            "coverage=120.500s >= 120s; fresh samples=10".to_string(),
            format!(
                "first_free={} bytes; latest_free={} bytes; loss={} bytes >= max(67108864, {}/10)={} bytes",
                10 * GIB,
                8 * GIB,
                2 * GIB,
                10 * GIB,
                GIB
            ),
            "decreases=5 >= 3; increases=1; 100*5=500 >= 70*6=420".to_string(),
            format!(
                "latest_free={} < reference_free={} bytes; reference age=31.250s >= 30s",
                8 * GIB,
                9 * GIB
            ),
            "100*pressure_samples=900 >= 80*samples=800; unknown pressure samples=1 (included in denominator)"
                .to_string(),
        ]
    );
}
