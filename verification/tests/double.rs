//! Doubles by their bits, against the machine's own.

use cc_ledger::double::{push_fixed, round_to_double, Double};
use cc_ledger::render::format_cost;

fn d(x: f64) -> Double {
    Double { bits: x.to_bits() }
}

/// Some doubles of every size and kind.
fn samples() -> Vec<f64> {
    let mut all = vec![
        0.0,
        -0.0,
        0.1,
        0.49999999999999994,
        0.5,
        1.0,
        1.5,
        2.5,
        49.9,
        50.0,
        69.99999999999999,
        70.0,
        89.9,
        90.0,
        99.5,
        100.0,
        150.0,
        4294967294.5,
        4294967295.0,
        4294967295.5,
        4503599627370495.5,
        4503599627370496.0,
        9007199254740992.0,
        1e22,
        1.7976931348623157e308,
        f64::MIN_POSITIVE,
        5e-324,
        f64::INFINITY,
        f64::NEG_INFINITY,
        f64::NAN,
        0.01,
        0.005,
        0.015,
        12.5,
        0.125,
        1234.565,
    ];
    let mut bits: u64 = 0x3ff0_0000_0000_0000;
    for i in 0..4000u64 {
        bits = bits
            .wrapping_mul(6364136223846793005)
            .wrapping_add(1442695040888963407);
        // Mostly moderate exponents, some of every kind.
        let e = if i % 4 == 0 { bits >> 52 & 0x7ff } else { 1000 + (bits >> 52) % 90 };
        all.push(f64::from_bits((bits & 0x000f_ffff_ffff_ffff) | e << 52));
    }
    let negative: Vec<f64> = all.iter().map(|x| -x).collect();
    all.extend(negative);
    all
}

#[test]
fn rounding_is_the_machines() {
    for x in samples() {
        assert_eq!(d(x).round(), x.round() as u32, "{x:e}");
    }
}

#[test]
fn comparing_is_the_machines() {
    for x in samples() {
        for n in [1u32, 5, 15, 50, 70, 90, 95, 100, 4_000_000_000] {
            assert_eq!(d(x).reaches(n), x >= n as f64, "{x:e} {n}");
        }
        for y in [0.01, 5e-324, 1.0, 1e300] {
            assert_eq!(d(x).below(d(y)), x < y, "{x:e} {y:e}");
        }
    }
}

#[test]
fn equality_is_the_machines() {
    let all = samples();
    for w in all.windows(2) {
        assert_eq!(d(w[0]) == d(w[1]), w[0] == w[1]);
        assert_eq!(d(w[0]) == d(w[0]), w[0] == w[0]);
    }
    assert!(d(0.0) == d(-0.0));
    assert!(d(f64::NAN) != d(f64::NAN));
}

#[test]
fn printing_is_the_machines() {
    for x in samples() {
        for places in [0usize, 1, 2, 3] {
            if places == 0 {
                continue;
            }
            let mut out = String::new();
            push_fixed(&mut out, d(x), places as u32);
            assert_eq!(out, format!("{x:.places$}"), "{x:e}");
        }
        let expected = if x < 0.01 {
            format!("{x:.3}")
        } else {
            format!("{x:.2}")
        };
        assert_eq!(format_cost(d(x)), expected);
    }
}

#[test]
fn rounding_to_a_double_is_the_machines() {
    let scale = (1u128 << 62) as f64;
    for n in [0u64, 1, 3, 7, 999, 1_000_003, 9_007_199_254_740_993, u64::MAX, u64::MAX - 1024] {
        let whole = round_to_double((n as u128) << 62, 1);
        assert_eq!(whole as f64, n as f64 * scale);
        let k = round_to_double(whole, 1000);
        assert_eq!(k as f64, n as f64 / 1000.0 * scale);
    }
}
