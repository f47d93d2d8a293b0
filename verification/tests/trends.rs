use nasty_top::double::Double;
use nasty_top::peers::PeerSample;
use nasty_top::sysfs::SECOND;
use nasty_top::trends::{HeadroomHistory, HeadroomPoint, LatencyHistory};

fn double(x: f64) -> Double {
    Double { bits: x.to_bits() }
}

fn float(x: Double) -> f64 {
    f64::from_bits(x.bits)
}

const GIB: u64 = 1 << 30;

fn sample(outlier: bool) -> PeerSample {
    PeerSample {
        await_ms: double(if outlier { 100.0 } else { 10.0 }),
        median_ms: double(10.0),
        completed: 20,
        queue: double(0.5),
        median_queue: double(0.5),
        peers: vec!["a".into(), "b".into()],
        outlier,
        floor_ms: double(2.0),
        selection_evidence: Vec::new(),
    }
}
fn point(at: u64, free: u64, pressure: Option<bool>) -> HeadroomPoint {
    HeadroomPoint {
        at,
        free,
        pressure,
        gc_running: Some(true),
        backlog: Some(10 * GIB),
    }
}

#[test]
fn latency_requires_persistence_and_keeps_an_earlier_request_weighted_baseline() {
    let at = 1_000 * SECOND;
    let mut history = LatencyHistory::default();
    for secs in (0..=60).step_by(2) {
        assert!(
            history
                .observe(
                    "group",
                    Some(&sample(false)),
                    at + secs * SECOND,
                    6 * SECOND
                )
                .is_none()
        );
    }
    for secs in (62..92).step_by(2) {
        assert!(
            history
                .observe(
                    "group",
                    Some(&sample(true)),
                    at + secs * SECOND,
                    6 * SECOND
                )
                .is_none()
        );
    }
    let evidence = history
        .observe(
            "group",
            Some(&sample(true)),
            at + 92 * SECOND,
            6 * SECOND,
        )
        .unwrap();
    assert_eq!(float(evidence.seconds), 30.0);
    assert_eq!(evidence.baseline_ms.map(float), Some(10.0));
    history.observe(
        "group",
        None,
        at + 94 * SECOND,
        6 * SECOND,
    );
    assert!(
        history
            .observe(
                "group",
                Some(&sample(true)),
                at + 96 * SECOND,
                6 * SECOND
            )
            .is_none()
    );
    assert!(
        history
            .observe(
                "different group",
                Some(&sample(true)),
                at + 98 * SECOND,
                6 * SECOND
            )
            .is_none()
    );
    assert_eq!(history.samples, 1);
}

#[test]
fn cached_allocator_samples_are_not_counted_and_history_is_bounded() {
    let at = 1_000 * SECOND;
    let mut history = HeadroomHistory::default();
    for _ in 0..1000 {
        let summary = history.observe(
            "target",
            point(at, 200 * GIB, Some(true)),
            16 * SECOND,
        );
        assert_eq!(summary.samples, 1);
        assert!(!summary.alert);
    }
    for secs in 1..=1200 {
        let summary = history.observe(
            "target",
            point(at + secs * SECOND, 200 * GIB, Some(true)),
            16 * SECOND,
        );
        assert!(summary.samples <= 61);
        assert!(float(summary.seconds) <= 600.0);
    }
}

#[test]
fn declining_headroom_requires_pressure_and_continued_decline_then_resolves_on_recovery() {
    let at = 1_000 * SECOND;
    let mut history = HeadroomHistory::default();
    for i in 0..=60 {
        let summary = history.observe(
            "target",
            point(
                at + (i * 10) * SECOND,
                (200 - i * 2) * GIB,
                Some(true),
            ),
            16 * SECOND,
        );
        if i < 12 {
            assert!(!summary.alert);
        } else {
            assert!(summary.alert);
        }
    }
    let recovered = history.observe(
        "target",
        point(at + 610 * SECOND, 200 * GIB, Some(false)),
        16 * SECOND,
    );
    assert!(!recovered.alert);
    let reset = history.observe(
        "changed-policy",
        point(at + 620 * SECOND, 180 * GIB, Some(true)),
        16 * SECOND,
    );
    assert_eq!(reset.direction, "warming up");
    assert_eq!(reset.samples, 1);
}

#[test]
fn one_off_drops_unknown_pressure_and_gaps_do_not_create_sustained_warnings() {
    let at = 1_000 * SECOND;
    for pressure in [Some(false), None] {
        let mut history = HeadroomHistory::default();
        for i in 0..=30 {
            let summary = history.observe(
                "target",
                point(at + (i * 10) * SECOND, (100 - i) * GIB, pressure),
                16 * SECOND,
            );
            assert!(!summary.alert);
        }
    }
    let mut history = HeadroomHistory::default();
    history.observe(
        "target",
        point(at, 200 * GIB, Some(true)),
        16 * SECOND,
    );
    for i in 1..=30 {
        let summary = history.observe(
            "target",
            point(at + (i * 10) * SECOND, 100 * GIB, Some(true)),
            16 * SECOND,
        );
        assert!(!summary.alert);
    }
    let summary = history.observe(
        "target",
        point(at + 400 * SECOND, 90 * GIB, Some(true)),
        16 * SECOND,
    );
    assert_eq!(summary.samples, 1);
}
