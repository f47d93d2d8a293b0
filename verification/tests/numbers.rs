use nasty_top::double::{are_alike, Double};
use nasty_top::numeral::{fixed_text, parse_double, to_nanoseconds, to_seconds, truncate};
use std::time::Duration;

fn double(x: f64) -> Double {
    Double { bits: x.to_bits() }
}

fn float(x: Double) -> f64 {
    f64::from_bits(x.bits)
}

fn samples() -> Vec<f64> {
    vec![
        0.0,
        -0.0,
        1.0,
        -1.0,
        0.1,
        0.2,
        0.3,
        1.5,
        2.5,
        1e-300,
        -1e-300,
        5e-324,
        1e300,
        -1e300,
        123456789.125,
        0.999_999_999_999_999_9,
        4_503_599_627_370_497.5,
        9_007_199_254_740_993.0,
        f64::MAX,
        f64::MIN_POSITIVE,
        f64::EPSILON,
        f64::INFINITY,
        f64::NEG_INFINITY,
        f64::NAN,
        3.0,
        7.0,
        1.0 / 3.0,
        2.0 / 3.0,
        86_400.0,
        1e15,
        1e16,
        -12.75,
    ]
}

fn agree(a: Double, b: f64) -> bool {
    (b.is_nan() && a.is_nan()) || float(a).to_bits() == b.to_bits()
}

#[test]
fn arithmetic_is_that_of_the_processor() {
    for x in samples() {
        for y in samples() {
            let (a, b) = (double(x), double(y));
            assert!(agree(a.plus(b), x + y), "{x} + {y}");
            assert!(agree(a.minus(b), x - y), "{x} - {y}");
            assert!(agree(a.times(b), x * y), "{x} * {y}");
            assert!(agree(a.over(b), x / y), "{x} / {y}");
        }
    }
}

#[test]
fn comparisons_are_those_of_the_processor() {
    for x in samples() {
        for y in samples() {
            let (a, b) = (double(x), double(y));
            assert_eq!(a.is_less(b), x < y, "{x} < {y}");
            assert_eq!(a.is_at_most(b), x <= y, "{x} <= {y}");
            assert_eq!(are_alike(a, b), x == y, "{x} == {y}");
            if !(x == 0.0 && y == 0.0) {
                assert!(agree(a.max(b), x.max(y)), "max {x} {y}");
                assert!(agree(a.min(b), x.min(y)), "min {x} {y}");
            }
        }
        assert!(agree(double(x).abs(), x.abs()));
        assert_eq!(double(x).is_finite(), x.is_finite());
        assert_eq!(double(x).is_nan(), x.is_nan());
    }
}

#[test]
fn whole_numbers_round_to_the_nearest_even() {
    for n in [
        0,
        1,
        2,
        1_000_000,
        (1 << 53) - 1,
        1 << 53,
        (1 << 53) + 1,
        (1 << 53) + 3,
        u64::MAX,
        u64::MAX - 1024,
        u64::MAX - 1025,
    ] {
        assert_eq!(float(Double::from_u64(n)), n as f64, "{n}");
    }
}

#[test]
fn sums_and_quotients_keep_the_order_of_whole_numbers() {
    let mut last = Double::zero();
    for n in [0u64, 1, 7, 1 << 20, 1 << 52, (1 << 60) + 1, u64::MAX] {
        let x = Double::from_u64(n);
        assert!(last.is_at_most(x));
        last = x;
    }
}

#[test]
fn numbers_are_written_with_fixed_places() {
    for x in samples() {
        if x.is_nan() {
            continue;
        }
        assert_eq!(fixed_text(double(x), 0), format!("{x:.0}"));
        assert_eq!(fixed_text(double(x), 1), format!("{x:.1}"));
        assert_eq!(fixed_text(double(x), 2), format!("{x:.2}"));
        assert_eq!(fixed_text(double(x), 6), format!("{x:.6}"));
    }
    for x in [0.5, 1.5, 2.5, 0.05, 0.15, 0.25, 0.35, 9.95, 99.5, 999_999.5] {
        assert_eq!(fixed_text(double(x), 0), format!("{x:.0}"));
        assert_eq!(fixed_text(double(x), 1), format!("{x:.1}"));
    }
    assert_eq!(fixed_text(double(f64::NAN), 1), "NaN");
}

#[test]
fn numbers_are_read_as_the_standard_library_reads_them() {
    for text in [
        "0", "1", "-1", "+1", "1.5", ".5", "5.", "1e3", "1E-3", "1e+3", "inf", "-inf", "+Infinity",
        "NaN", "nan", "-nan", "0.1", "123456789012345678901234567890", "1e-400", "1e400",
        "4.9e-324", "2.4703282292062327e-324", "2.4703282292062328e-324", "9007199254740993",
        "9007199254740992.5", "1.7976931348623159e308", "0.000001e306", "", ".", "e1", "1e", "1e+",
        "--1", "1 ", " 1", "1_0", "0x1", "infin", "12.5.1", "1e1.5",
    ] {
        let ours = parse_double(text);
        let theirs = text.parse::<f64>().ok();
        match (ours, theirs) {
            (Some(a), Some(b)) => assert!(agree(a, b), "{text}: {} and {b}", float(a)),
            (None, None) => {}
            _ => panic!("{text}"),
        }
    }
}

#[test]
fn numbers_are_cut_to_whole_ones() {
    for x in samples() {
        assert_eq!(truncate(double(x)), x as u64, "{x}");
    }
    for x in [0.99, 1.99, 18446744073709551615.0, 1.8e19, 2e19] {
        assert_eq!(truncate(double(x)), x as u64, "{x}");
    }
}

#[test]
fn spans_convert_as_durations_do() {
    for ns in [0, 1, 999_999_999, 1_000_000_000, 1_500_000_000, 30_000_000_000, u64::MAX] {
        assert_eq!(float(to_seconds(ns)), Duration::from_nanos(ns).as_secs_f64(), "{ns}");
    }
    for x in [0.0, 1e-9, 4e-10, 5e-10, 6e-10, 1.5e-9, 0.25, 1.0, 86_400.0, 0.1, 1e-300] {
        assert_eq!(
            to_nanoseconds(double(x)) as u128,
            Duration::from_secs_f64(x).as_nanos(),
            "{x}"
        );
    }
}
