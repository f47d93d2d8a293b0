use nasty_top::analysis::analyze;
use nasty_top::strmap::StrMap;
use nasty_top::sysfs::{DeviceInfo, FsSnapshot};
use nasty_top::targets::{MemberAllocation, ReconcileStatus, ReconcileWork, Severity, TargetConfig};

fn options(entries: &[(&str, &str)]) -> StrMap<String> {
    let mut map = StrMap::new();
    for (name, value) in entries {
        map.insert(name, value.to_string());
    }
    map
}

const GIB: u64 = 1 << 30;

fn pool(capacities: &[u64], physical_gib: u64) -> FsSnapshot {
    FsSnapshot {
        devices: capacities
            .iter()
            .enumerate()
            .map(|(i, size)| DeviceInfo {
                index: i as u32,
                name: format!("nvme{i}n1p3"),
                label: Some(format!("ssd.nvme.{i}")),
                allocation: MemberAllocation {
                    capacity_bytes: Some(size * GIB),
                    free_bytes: Some(20 * GIB),
                    state: Some("rw".into()),
                    online: Some(true),
                    durability: Some(1),
                    data_allowed: Some(vec!["btree".into(), "user".into(), "journal".into()]),
                    ..Default::default()
                },
                ..Default::default()
            })
            .collect(),
        target_configs: vec![TargetConfig {
            role: "metadata",
            target: "ssd.nvme".into(),
            device_name: None,
        }],
        btree_disk_bytes: Some(physical_gib * GIB),
        options: options(&[("metadata_replicas", "3")]),
        reconcile: ReconcileStatus {
            work: vec![ReconcileWork {
                category: "replicas".into(),
                metadata_bytes: Some(0),
                data_bytes: Some(0),
            }],
            ..Default::default()
        },
        ..Default::default()
    }
}

#[test]
fn reported_pool_metadata_exceeds_nvme_target_before_reserves() {
    let mut snap = pool(&[977, 977, 932], 0);
    snap.btree_disk_bytes = Some(7_821_903_360 * 512);
    for (device, buckets) in snap.devices.iter_mut().zip([1_000_000, 1_000_000, 953_869]) {
        device.allocation.capacity_bytes = Some(buckets * (1 << 20));
    }
    let report = analyze(&snap).remove(0);
    assert_eq!(report.capacity_bytes, Some(2_953_869 * (1 << 20)));
    assert_eq!(report.findings.len(), 1);
    assert!(report.findings[0].summary.contains("3.64 TiB"));
    assert!(report.findings[0].summary.contains("2.82 TiB"));
    assert!(report.findings[0].detail.contains("845.14 GiB"));
    assert_eq!(report.findings[0].severity, Severity::Warning);
}

#[test]
fn healthy_replicated_footprint_is_not_multiplied_again() {
    let snap = pool(&[200, 200, 200], 300);
    let report = analyze(&snap).remove(0);
    assert!(report.findings.is_empty());
    assert_eq!(report.capacity_bytes, Some(600 * GIB));
}

#[test]
fn unequal_members_need_distinct_copy_capacity_but_extra_members_can_help() {
    let report = analyze(&pool(&[500, 80, 80], 300)).remove(0);
    assert_eq!(report.findings.len(), 1);
    assert!(report.findings[0].id.ends_with(":layout"));
    assert!(report.findings[0].detail.contains("Assuming a uniform"));
    assert!(
        analyze(&pool(&[500, 80, 80, 80], 300))[0]
            .findings
            .is_empty()
    );
}

#[test]
fn label_boundaries_and_non_writable_members_are_respected() {
    let mut snap = pool(&[200, 200, 200, 200], 300);
    snap.devices[3].label = Some("ssd.nvme2.0".into());
    assert_eq!(analyze(&snap)[0].members.len(), 3);
    snap.devices[2].allocation.state = Some("ro".into());
    let report = analyze(&snap).remove(0);
    assert_eq!(report.eligible_members, Some(2));
    assert_eq!(report.capacity_bytes, Some(400 * GIB));
    assert!(report.findings.iter().any(|f| f.id.ends_with(":replicas")));
    assert!(
        report
            .notes
            .iter()
            .any(|s| s.contains("Excluded") && s.contains("nvme2n1p3"))
    );
}

#[test]
fn unknown_inputs_do_not_become_zero_capacity_or_healthy_state() {
    let mut snap = pool(&[200, 200, 200], 900);
    snap.devices[0].allocation.capacity_bytes = None;
    assert_eq!(analyze(&snap)[0].capacity_bytes, None);
    assert!(analyze(&snap)[0].findings.is_empty());
    snap.devices[0].allocation.state = None;
    assert_eq!(analyze(&snap)[0].eligible_members, None);
    assert!(analyze(&snap)[0].findings.is_empty());
    snap.devices[0].label = None;
    assert!(analyze(&snap)[0].findings.is_empty());
    snap.devices.clear();
    assert!(analyze(&snap)[0].findings.is_empty());
}

#[test]
fn device_alias_does_not_depend_on_labels_and_data_allowed_is_checked() {
    let mut snap = pool(&[200, 200, 200], 100);
    snap.target_configs[0].target = "/dev/disk/by-id/example-part3".into();
    assert!(analyze(&snap)[0].findings.is_empty()); // unresolved, not an empty group
    snap.target_configs[0].device_name = Some("nvme0n1p3".into());
    snap.devices[0].label = None;
    snap.devices[0].allocation.data_allowed = Some(vec!["user".into()]);
    let report = analyze(&snap).remove(0);
    assert_eq!(report.members, ["nvme0n1p3"]);
    assert_eq!(report.eligible_members, Some(0));
    assert!(report.findings[0].id.ends_with(":no-members"));
}

#[test]
fn unusual_durability_and_replica_transitions_disable_layout_estimates() {
    let mut snap = pool(&[500, 80, 80], 300);
    snap.devices[0].allocation.durability = Some(2);
    assert!(analyze(&snap)[0].findings.is_empty());
    snap.devices[0].allocation.durability = None;
    assert!(analyze(&snap)[0].findings.is_empty());
    snap.devices[0].allocation.durability = Some(1);
    snap.reconcile.work[0].metadata_bytes = Some(10 * GIB);
    assert!(analyze(&snap)[0].findings.is_empty());
    snap.reconcile.work.clear();
    assert!(analyze(&snap)[0].findings.is_empty());
}

#[test]
fn kernel_gc_pressure_is_reported_even_when_capacity_is_unknown() {
    let mut snap = pool(&[200, 200, 200], 300);
    snap.copygc.running = Some(true);
    snap.copygc.needs_gc.insert("nvme1n1p3", true);
    snap.devices[1].allocation.state = None;
    let report = analyze(&snap).remove(0);
    assert_eq!(report.findings.len(), 1);
    assert!(report.findings[0].summary.contains("nvme1n1p3 needs GC"));
    assert!(report.findings[0].detail.contains("not proof"));
    snap.copygc.needs_gc.clear();
    assert!(analyze(&snap)[0].findings.is_empty());
}
