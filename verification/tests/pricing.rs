//! List prices.

use cc_ledger::double::Double;
use cc_ledger::pricing::{cost_of, dollars, format_usd, rates_for, Cost};

/// What the ids here begin with.
const VENDOR: &str = "vendor-";

fn approx(a: f64, b: f64) {
    assert!((a - b).abs() < 1e-9, "{a} != {b}");
}

/// Thousandths of a dollar per million tokens, as dollars.
fn rate(thousandths: u64) -> f64 {
    thousandths as f64 / 1e3
}

/// Billionths of a dollar, as dollars.
fn usd(billionths: i128) -> f64 {
    billionths as f64 / 1e9
}

#[test]
fn opus_rates_match_the_published_table() {
    let r = rates_for("vendor-opus-5", VENDOR).unwrap();
    approx(rate(r.input), 5.0);
    approx(rate(r.cache_write_5m), 6.25);
    approx(rate(r.cache_write_1h), 10.0);
    approx(rate(r.cache_read), 0.50);
    approx(rate(r.output), 25.0);
}

#[test]
fn fable_5_1_has_the_discounted_cache_read_rate() {
    approx(rate(rates_for("vendor-fable-5-1", VENDOR).unwrap().cache_read), 0.25);
    approx(rate(rates_for("vendor-fable-5", VENDOR).unwrap().cache_read), 1.00);
}

#[test]
fn cache_write_multipliers_are_derived_not_guessed() {
    for model in ["vendor-opus-5", "vendor-sonnet-5", "vendor-haiku-4-5"] {
        let r = rates_for(model, VENDOR).unwrap();
        approx(rate(r.cache_write_5m), rate(r.input) * 1.25);
        approx(rate(r.cache_write_1h), rate(r.input) * 2.0);
    }
}

#[test]
fn dated_model_ids_resolve() {
    assert_eq!(
        rates_for("vendor-haiku-4-5-20251001", VENDOR),
        rates_for("vendor-haiku-4-5", VENDOR)
    );
}

#[test]
fn unknown_models_are_not_priced() {
    assert!(rates_for("vendor-something-6", VENDOR).is_none());
    assert!(cost_of("vendor-something-6", VENDOR, 1, 1, 1, 1, 1).is_none());
}

#[test]
fn matches_the_published_worked_example() {
    let c = cost_of("vendor-opus-5", VENDOR, 10_000, 15_000, 0, 0, 40_000).unwrap();
    approx(usd(c.input), 0.05);
    approx(usd(c.cache_read), 0.02);
    approx(usd(c.output), 0.375);
    approx(usd(c.total()), 0.445);
}

#[test]
fn ephemeral_split_is_priced_separately() {
    let all_1h = cost_of("vendor-opus-5", VENDOR, 0, 0, 1_000_000, 0, 0).unwrap();
    let all_5m = cost_of("vendor-opus-5", VENDOR, 0, 0, 0, 1_000_000, 0).unwrap();
    approx(usd(all_1h.cache_write), 10.0);
    approx(usd(all_5m.cache_write), 6.25);
    assert!(all_1h.cache_write > all_5m.cache_write);
}

#[test]
fn costs_accumulate() {
    let mut total = Cost::default();
    total.add(cost_of("vendor-opus-5", VENDOR, 0, 1_000_000, 0, 0, 0).unwrap());
    total.add(cost_of("vendor-opus-5", VENDOR, 0, 1_000_000, 0, 0, 0).unwrap());
    approx(usd(total.output), 50.0);
    approx(usd(total.total()), 50.0);
}

fn d(x: f64) -> Double {
    Double { bits: x.to_bits() }
}

#[test]
fn small_amounts_stay_visible() {
    assert_eq!(format_usd(d(0.0)), "$0.00");
    assert_eq!(format_usd(d(0.0012)), "$0.0012");
    assert_eq!(format_usd(d(12.5)), "$12.50");
    assert_eq!(format_usd(d(510.617)), "$510.62");
}

#[test]
fn large_amounts_have_commas() {
    assert_eq!(format_usd(d(1_234.56)), "$1,234.56");
    assert_eq!(format_usd(d(999.994)), "$999.99");
    assert_eq!(format_usd(d(999.996)), "$1,000.00");
    assert_eq!(format_usd(d(1_234_567_890.0)), "$1,234,567,890.00");
    assert_eq!(format_usd(d(-12.5)), "$-12.50");
    assert_eq!(format_usd(d(-0.0012)), "$-0.0012");
    assert_eq!(format_usd(d(-0.0)), "$0.00");
    assert_eq!(format_usd(d(0.009_999_999)), "$0.0100");
    assert_eq!(format_usd(d(0.01)), "$0.01");
    assert_eq!(format_usd(d(1e-9)), "$0.0000");
    assert_eq!(format_usd(d(f64::NAN)), "$NaN");
    assert_eq!(format_usd(d(-f64::INFINITY)), "$-inf");
}

/// With the commas taken out, what the number itself is written as.
#[test]
fn amounts_are_written_as_doubles_are() {
    let plain = |x: f64| {
        if x == 0.0 {
            "$0.00".to_string()
        } else if x.abs() < 0.01 {
            format!("${x:.4}")
        } else {
            format!("${x:.2}")
        }
    };
    let mut amounts = vec![2.665, 0.125, 0.135, 0.375, 1.005, 0.01, f64::MAX, f64::MIN_POSITIVE];
    amounts.extend((0..5_000).map(|i| i as f64 * 0.005));
    amounts.extend((0..5_000).map(|i| i as f64 * 0.00005));
    amounts.extend((0..60).map(|i| 1.234_567_8 * 10f64.powi(i - 20)));
    for x in amounts {
        for x in [x, -x] {
            assert_eq!(format_usd(d(x)).replace(',', ""), plain(x), "{x}");
        }
    }
    assert_eq!(format_usd(d(2.665)), "$2.67", "the double is above the tie");
    assert_eq!(format_usd(d(0.125)), "$0.12", "a true tie goes to the even digit");
}

#[test]
fn billionths_are_shown_as_the_nearest_double() {
    assert_eq!(format_usd(dollars(2_665_000_000)), "$2.67");
    assert_eq!(format_usd(dollars(0)), "$0.00");
    assert_eq!(format_usd(dollars(-1_200_000)), "$-0.0012");
    let mut n: i128 = 1;
    while n < i128::MAX / 7 {
        for m in [n, n - 1, n + 1, -n] {
            // A text is read as the nearest double.
            let whole = m.abs() / 1_000_000_000;
            let text = format!("{whole}.{:09}", m.abs() % 1_000_000_000);
            let mut x: f64 = text.parse().unwrap();
            if m < 0 {
                x = -x;
            }
            assert_eq!(dollars(m).bits, x.to_bits(), "{m}");
        }
        n = n * 7 / 3 + 1;
    }
    let least: f64 = "-170141183460469231731687303715.884105728".parse().unwrap();
    assert_eq!(dollars(i128::MIN).bits, least.to_bits());
}

#[test]
fn every_listed_model_has_its_rates() {
    for (models, input, read, output) in [
        (vec!["vendor-fable-5-1", "vendor-mythos-5-1"], 10.0, 0.25, 50.0),
        (vec!["vendor-fable-5", "vendor-mythos-5"], 10.0, 1.00, 50.0),
        (
            vec![
                "vendor-opus-5",
                "vendor-opus-4-8",
                "vendor-opus-4-7",
                "vendor-opus-4-6",
                "vendor-opus-4-5",
            ],
            5.0,
            0.50,
            25.0,
        ),
        (vec!["vendor-opus-4-1", "vendor-opus-4"], 15.0, 1.50, 75.0),
        (vec!["vendor-sonnet-5"], 2.0, 0.20, 10.0),
        (
            vec!["vendor-sonnet-4-6", "vendor-sonnet-4-5", "vendor-sonnet-4"],
            3.0,
            0.30,
            15.0,
        ),
        (vec!["vendor-haiku-4-5"], 1.0, 0.10, 5.0),
        (vec!["vendor-haiku-3-5"], 0.80, 0.08, 4.0),
    ] {
        for model in models {
            let r = rates_for(model, VENDOR).unwrap();
            approx(rate(r.input), input);
            approx(rate(r.cache_read), read);
            approx(rate(r.output), output);
            approx(rate(r.cache_write_5m), input * 1.25);
            approx(rate(r.cache_write_1h), input * 2.0);
        }
    }
}

#[test]
fn only_one_date_is_taken_off() {
    assert!(rates_for("vendor-haiku-4-5-20251001-20251001", VENDOR).is_none());
    assert!(rates_for("-20251001", VENDOR).is_none());
    assert!(rates_for("", VENDOR).is_none());
}

#[test]
fn only_the_vendors_own_models_are_listed() {
    assert!(rates_for("other-opus-5", VENDOR).is_none());
    assert!(rates_for("opus-5", VENDOR).is_none());
    assert!(rates_for("other-opus-5", "other-").is_some());
    assert!(rates_for("vendor-vendor-opus-5", VENDOR).is_none());
}

#[test]
fn pricing_apart_or_together_comes_to_the_same() {
    let a = cost_of("vendor-opus-5", VENDOR, 1, 2, 3, 4, 5).unwrap();
    let b = cost_of("vendor-opus-5", VENDOR, 10, 20, 30, 40, 50).unwrap();
    let both = cost_of("vendor-opus-5", VENDOR, 11, 22, 33, 44, 55).unwrap();
    let mut sum = a;
    sum.add(b);
    assert_eq!(sum, both);
    assert_eq!(both.total(), a.total() + b.total());
}

#[test]
fn the_largest_counts_are_priced_without_overflow() {
    let c = cost_of("vendor-opus-4", VENDOR, i64::MAX, i64::MAX, i64::MAX, i64::MAX, i64::MAX).unwrap();
    assert_eq!(c.output, i64::MAX as i128 * 75_000);
    assert!(c.total() > 0);
}

#[test]
fn cache_reads_are_a_tenth_of_the_input_or_a_fortieth() {
    for (name, part) in [("opus-5", 10), ("haiku-3-5", 10), ("mythos-5-1", 40), ("fable-5-1", 40)] {
        let r = rates_for(&format!("{VENDOR}{name}"), VENDOR).unwrap();
        assert_eq!(r.cache_read * part, r.input, "{name}");
    }
}
