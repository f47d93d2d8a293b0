use nasty_top::double::Double;
use nasty_top::metrics::{DeviceRate, Rates};
use nasty_top::peers::compare;
use nasty_top::sysfs::{DeviceInfo, FsSnapshot, SECOND};
use nasty_top::targets::{MemberAllocation, TargetConfig};
use nasty_top::topology::{BlockTopology, MediaKind};

fn double(x: f64) -> Double {
    Double { bits: x.to_bits() }
}

fn float(x: Double) -> f64 {
    f64::from_bits(x.bits)
}

fn pool() -> (FsSnapshot, Rates) {
    let devices: Vec<_> = (0..6)
        .map(|i| DeviceInfo {
            name: format!("dm-{i}"),
            member_uuid: Some(format!("uuid-{i}")),
            label: Some(format!("tier.disk{i}")),
            topology: BlockTopology {
                leaves: vec![format!("physical-{i}")],
                media: Some(if i < 3 {
                    MediaKind::Rotational
                } else {
                    MediaKind::Nvme
                }),
            },
            allocation: MemberAllocation {
                online: Some(true),
                ..Default::default()
            },
            ..Default::default()
        })
        .collect();
    let rates = Rates {
        devices: devices
            .iter()
            .enumerate()
            .map(|(i, d)| DeviceRate {
                name: d.name.clone(),
                member_key: d.identity(),
                diskstats_interval_valid: true,
                read_completed: 20,
                read_iops: double(10.0),
                read_await_ms: double(if i < 3 { 32.0 } else { 0.2 }),
                avg_queue_depth: double(0.5),
                sample_seconds: double(2.0),
                ..Default::default()
            })
            .collect(),
    };
    (
        FsSnapshot {
            devices,
            target_configs: vec![TargetConfig {
                role: "background",
                target: "tier".into(),
                device_name: None,
            }],
            ..Default::default()
        },
        rates,
    )
}

#[test]
fn ordinary_hdd_latency_is_not_compared_to_nvme_and_a_real_peer_outlier_is_found() {
    let (snap, mut rates) = pool();
    let results = compare(&snap, &rates, 6 * SECOND);
    assert!(!results.get("uuid-0").unwrap().outlier());
    assert_eq!(float(results.get("uuid-0").unwrap().read.as_ref().unwrap().median_ms), 32.0);
    rates.devices[0].read_await_ms = double(185.0);
    assert!(compare(&snap, &rates, 6 * SECOND).get("uuid-0").unwrap().outlier());
    rates.devices[3].read_await_ms = double(1.0); // 5x peers but below the NVMe absolute floor
    assert!(!compare(&snap, &rates, 6 * SECOND).get("uuid-3").unwrap().outlier());
}

#[test]
fn insufficient_idle_shared_or_overloaded_peers_do_not_manufacture_an_outlier() {
    let (mut snap, mut rates) = pool();
    rates.devices[0].read_await_ms = double(185.0);
    rates.devices[1].read_completed = 0;
    assert!(
        compare(&snap, &rates, 6 * SECOND).get("uuid-0").unwrap()
            .read
            .is_none()
    );
    rates.devices[1].read_completed = 20;
    rates.devices[0].avg_queue_depth = double(20.0);
    assert!(
        compare(&snap, &rates, 6 * SECOND).get("uuid-0").unwrap()
            .read
            .is_none()
    );
    rates.devices[0].avg_queue_depth = double(0.5);
    snap.devices[1].topology.leaves = snap.devices[0].topology.leaves.clone();
    assert!(
        compare(&snap, &rates, 6 * SECOND).get("uuid-0").unwrap()
            .read
            .is_none()
    );
    snap.devices[0].topology.media = None;
    assert!(!compare(&snap, &rates, 6 * SECOND).contains_key("uuid-0"));
}

#[test]
fn narrow_target_and_directional_workload_context_are_respected() {
    let (mut snap, mut rates) = pool();
    rates.devices[0].read_await_ms = double(185.0);
    snap.target_configs.push(TargetConfig {
        role: "metadata",
        target: "/dev/dm-0".into(),
        device_name: Some("dm-0".into()),
    });
    assert!(
        compare(&snap, &rates, 6 * SECOND).get("uuid-0").unwrap()
            .read
            .is_none()
    );
    snap.target_configs.pop();
    rates.devices[1].write_iops = double(100.0); // very different read/write mix
    assert!(
        compare(&snap, &rates, 6 * SECOND).get("uuid-0").unwrap()
            .read
            .is_none()
    );
    rates.devices[1].write_iops = double(0.0);
    rates.devices[2].sample_seconds = double(60.0); // long interval cannot masquerade as a fresh peer
    assert!(
        compare(&snap, &rates, 6 * SECOND).get("uuid-0").unwrap()
            .read
            .is_none()
    );
}

#[test]
fn of_peers_that_share_a_disk_one_counts() {
    let (mut snap, rates) = pool();
    for i in 3..6 {
        snap.devices[i].topology.media = Some(MediaKind::Rotational);
    }
    let mut rates = rates;
    for rate in &mut rates.devices {
        rate.read_await_ms = double(32.0);
    }
    let peers = |snap: &FsSnapshot| {
        compare(snap, &rates, 6 * SECOND).get("uuid-0").unwrap().read.as_ref().unwrap().peers.clone()
    };
    assert_eq!(peers(&snap), ["dm-1", "dm-2", "dm-3", "dm-4", "dm-5"]);
    snap.devices[2].topology.leaves = snap.devices[1].topology.leaves.clone();
    snap.devices[4].topology.leaves = snap.devices[0].topology.leaves.clone();
    assert_eq!(peers(&snap), ["dm-1", "dm-3", "dm-5"]);
    snap.devices[3].topology.leaves.push(String::from("physical-9"));
    assert_eq!(peers(&snap), ["dm-1", "dm-5"]);
}
