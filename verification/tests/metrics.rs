use nasty_top::double::Double;
use nasty_top::metrics::{compute_rates, device_pressure_medians, DeviceRate};
use nasty_top::sysfs::{DeviceInfo, FsSnapshot};

fn double(x: f64) -> Double {
    Double { bits: x.to_bits() }
}

fn float(x: Double) -> f64 {
    f64::from_bits(x.bits)
}

#[test]
fn computes_queue_depth_and_block_await() {
    let previous = FsSnapshot {
        devices: vec![DeviceInfo {
            index: 1,
            name: "sda".into(),
            diskstats_reads: 100,
            diskstats_writes: 50,
            diskstats_read_ms: 1_000,
            diskstats_write_ms: 2_000,
            diskstats_io_ms: 5_000,
            diskstats_weighted_io_ms: 8_000,
            diskstats_valid: true,
            ..DeviceInfo::default()
        }],
        ..FsSnapshot::default()
    };
    let current = FsSnapshot {
        devices: vec![DeviceInfo {
            index: 1,
            name: "sda".into(),
            diskstats_reads: 110,
            diskstats_writes: 54,
            diskstats_read_ms: 1_050,
            diskstats_write_ms: 2_080,
            diskstats_io_ms: 6_000,
            diskstats_weighted_io_ms: 8_300,
            diskstats_in_flight: 7,
            diskstats_valid: true,
            ..DeviceInfo::default()
        }],
        ..FsSnapshot::default()
    };

    let device = &compute_rates(&previous, &current, double(2.0)).devices[0];
    assert_eq!(float(device.read_iops), 5.0);
    assert_eq!(float(device.write_iops), 2.0);
    assert_eq!(float(device.read_await_ms), 5.0);
    assert_eq!(float(device.write_await_ms), 20.0);
    assert_eq!(device.queue_depth, 7);
    assert_eq!(float(device.avg_queue_depth), 0.15);
    assert_eq!(float(device.util_pct), 50.0);
}

#[test]
fn pressure_detection_is_relative_but_has_absolute_floors() {
    let normal = DeviceRate {
        read_iops: double(100.0),
        read_await_ms: double(8.0),
        avg_queue_depth: double(0.5),
        diskstats_interval_valid: true,
        ..DeviceRate::default()
    };
    let slow = DeviceRate {
        read_iops: double(20.0),
        read_await_ms: double(80.0),
        avg_queue_depth: double(4.0),
        diskstats_interval_valid: true,
        ..DeviceRate::default()
    };
    let devices = vec![normal.clone(), normal, slow.clone()];
    let (median_await, median_queue) = device_pressure_medians(&devices);
    assert_eq!((float(median_await), float(median_queue)), (8.0, 0.5));
    assert!(slow.pressure_outlier(median_await, median_queue));
    assert!(!devices[0].pressure_outlier(median_await, median_queue));
}

#[test]
fn two_device_pool_uses_lower_median_for_outlier_detection() {
    let fast = DeviceRate {
        read_iops: double(100.0),
        read_await_ms: double(5.0),
        ..DeviceRate::default()
    };
    let slow = DeviceRate {
        read_iops: double(100.0),
        read_await_ms: double(100.0),
        ..DeviceRate::default()
    };
    let devices = vec![fast, slow.clone()];
    let (median_await, median_queue) = device_pressure_medians(&devices);
    assert_eq!(float(median_await), 5.0);
    assert!(slow.pressure_outlier(median_await, median_queue));
}

#[test]
fn devices_without_completions_do_not_skew_await_median() {
    let devices = vec![
        DeviceRate {
            queue_depth: 4,
            diskstats_interval_valid: true,
            ..DeviceRate::default()
        },
        DeviceRate {
            queue_depth: 3,
            diskstats_interval_valid: true,
            ..DeviceRate::default()
        },
        DeviceRate {
            read_iops: double(10.0),
            read_await_ms: double(8.0),
            diskstats_interval_valid: true,
            ..DeviceRate::default()
        },
    ];

    assert_eq!(float(device_pressure_medians(&devices).0), 8.0);
}

#[test]
fn missing_or_reset_diskstats_baseline_suppresses_interval_rates() {
    let current_device = DeviceInfo {
        index: 1,
        name: "sda".into(),
        diskstats_reads: 10_000,
        diskstats_read_ms: 20_000,
        diskstats_io_ms: 30_000,
        diskstats_weighted_io_ms: 40_000,
        diskstats_in_flight: 2,
        diskstats_valid: true,
        ..DeviceInfo::default()
    };
    let current = FsSnapshot {
        devices: vec![current_device.clone()],
        ..FsSnapshot::default()
    };

    let new_device = &compute_rates(&FsSnapshot::default(), &current, double(1.0)).devices[0];
    assert_eq!(float(new_device.read_iops), 0.0);
    assert_eq!(float(new_device.avg_queue_depth), 0.0);
    assert_eq!(new_device.queue_depth, 2);

    let previous = FsSnapshot {
        devices: vec![DeviceInfo {
            diskstats_reads: 20_000,
            diskstats_read_ms: 30_000,
            diskstats_io_ms: 40_000,
            diskstats_weighted_io_ms: 50_000,
            ..current_device
        }],
        ..FsSnapshot::default()
    };
    let reset = &compute_rates(&previous, &current, double(1.0)).devices[0];
    assert_eq!(float(reset.read_iops), 0.0);
    assert_eq!(float(reset.util_pct), 0.0);
    assert_eq!(float(reset.avg_queue_depth), 0.0);
}
