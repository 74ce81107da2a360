//! Days, weeks and months.

use cc_ledger::bucket::{
    date_as_text, date_with_offset, day_label, day_start, first_existing_hour, local_date,
    month_label, month_of_date, month_start, parse_date, start_of_day, timestamp_text, week_label,
    week_start, Zone, EPOCH, FIRST, LAST,
};
use chrono::{FixedOffset, TimeZone, Timelike, Utc};
use chrono_tz::America::New_York;

/// 2026-09-05T13:56:32Z
const TS: i64 = 1_788_616_592;

fn new_york() -> Zone {
    Zone::Named("America/New_York".to_string())
}

fn auckland() -> Zone {
    Zone::Named("Pacific/Auckland".to_string())
}

fn at(y: i32, m: u32, d: u32, h: u32) -> i64 {
    New_York
        .with_ymd_and_hms(y, m, d, h, 0, 0)
        .unwrap()
        .timestamp()
}

#[test]
fn buckets_by_local_day_not_utc_day() {
    let late = chrono::DateTime::parse_from_rfc3339("2026-09-05T23:30:00Z")
        .unwrap()
        .timestamp();

    assert_eq!(day_label(late, &Zone::Utc), "2026-09-05");
    assert_eq!(day_label(late, &auckland()), "2026-09-06");
    assert_eq!(day_label(late, &new_york()), "2026-09-05");
}

#[test]
fn day_start_is_local_midnight() {
    let start = day_start(TS, &new_york());
    let as_local = New_York.timestamp_opt(start, 0).unwrap();
    assert_eq!(
        (as_local.hour(), as_local.minute(), as_local.second()),
        (0, 0, 0)
    );
    assert!(start <= TS);
    assert!(TS - start < 24 * 3600);
}

#[test]
fn spring_forward_day_is_twenty_three_hours() {
    let during = at(2026, 3, 8, 12);
    let next = at(2026, 3, 9, 12);

    let start = day_start(during, &new_york());
    let next_start = day_start(next, &new_york());

    assert_eq!(next_start - start, 23 * 3600, "23-hour day");
    assert_eq!(day_label(during, &new_york()), "2026-03-08");
    assert_ne!(next_start - start, 24 * 3600);
}

#[test]
fn fall_back_day_is_twenty_five_hours() {
    let during = at(2026, 11, 1, 12);
    let next = at(2026, 11, 2, 12);

    let start = day_start(during, &new_york());
    let next_start = day_start(next, &new_york());
    assert_eq!(next_start - start, 25 * 3600, "25-hour day");
}

#[test]
fn instants_land_in_exactly_one_day_bucket() {
    let midnight = at(2026, 3, 8, 0);

    assert_eq!(day_start(midnight, &new_york()), midnight);
    assert_eq!(day_label(midnight - 1, &new_york()), "2026-03-07");
    assert_eq!(day_label(midnight, &new_york()), "2026-03-08");
}

#[test]
fn weeks_start_on_monday() {
    assert_eq!(week_label(TS, &Zone::Utc), "2026-08-31");

    let monday = Utc.with_ymd_and_hms(2026, 8, 31, 0, 0, 0).unwrap();
    assert_eq!(week_start(TS, &Zone::Utc), monday.timestamp());
}

#[test]
fn week_start_is_stable_across_a_dst_transition() {
    let sunday = at(2026, 3, 8, 12);
    assert_eq!(week_label(sunday, &new_york()), "2026-03-02");

    let start = week_start(sunday, &new_york());
    assert_eq!(sunday - start, 6 * 24 * 3600 + 12 * 3600 - 3600);
}

#[test]
fn months_bucket_by_local_month() {
    assert_eq!(month_label(TS, &Zone::Utc), "2026-09");

    let start = month_start(TS, &Zone::Utc);
    assert_eq!(
        start,
        Utc.with_ymd_and_hms(2026, 9, 1, 0, 0, 0)
            .unwrap()
            .timestamp()
    );

    let edge = chrono::DateTime::parse_from_rfc3339("2026-09-01T02:00:00Z")
        .unwrap()
        .timestamp();
    assert_eq!(month_label(edge, &new_york()), "2026-08");
}

#[test]
fn parse_date_reads_local_midnight() {
    let ts = parse_date("2026-09-05", &Zone::Utc).unwrap();
    assert_eq!(
        ts,
        Utc.with_ymd_and_hms(2026, 9, 5, 0, 0, 0)
            .unwrap()
            .timestamp()
    );

    let nyc = parse_date("2026-09-05", &new_york()).unwrap();
    assert_eq!(nyc - ts, 4 * 3600);

    assert_eq!(parse_date("  2026-09-05  ", &Zone::Utc), Some(ts));
    assert_eq!(parse_date("nonsense", &Zone::Utc), None);
    assert_eq!(parse_date("2026-13-01", &Zone::Utc), None);
}

#[test]
fn works_in_extreme_offsets() {
    let plus = Zone::Fixed(13 * 3600 + 45 * 60);
    let minus = Zone::Fixed(-11 * 3600);

    assert_eq!(day_label(TS, &plus), "2026-09-06");
    assert_eq!(day_label(TS, &minus), "2026-09-05");
    assert!(day_start(TS, &plus) <= TS);
    assert!(day_start(TS, &minus) <= TS);
}

#[test]
fn fixed_zones_agree_with_their_crate() {
    for secs in [-86_399, -39_600, -1, 0, 1, 20_700, 49_500, 86_399] {
        let zone = Zone::Fixed(secs);
        let there = FixedOffset::east_opt(secs).unwrap();
        for ts in [0, -1, TS, -TS, 951_782_400, 4_102_444_799, -62_135_596_801] {
            let local = there.timestamp_opt(ts, 0).unwrap();
            let date = local.date_naive();
            assert_eq!(day_label(ts, &zone), date.format("%Y-%m-%d").to_string());
            assert_eq!(month_label(ts, &zone), date.format("%Y-%m").to_string());
            let midnight = there
                .from_local_datetime(&date.and_hms_opt(0, 0, 0).unwrap())
                .unwrap();
            assert_eq!(day_start(ts, &zone), midnight.timestamp());
        }
    }
}

#[test]
fn named_zones_agree_with_their_crate() {
    for name in ["America/Santiago", "Asia/Kathmandu", "Pacific/Apia", "Europe/Paris"] {
        let tz: chrono_tz::Tz = name.parse().unwrap();
        let zone = Zone::Named(name.to_string());
        for day in 0..800 {
            let ts = 1_300_000_000 + day * 86_400 / 2;
            let there = tz.timestamp_opt(ts, 0).unwrap();
            assert_eq!(
                day_label(ts, &zone),
                there.date_naive().format("%Y-%m-%d").to_string()
            );
        }
    }
}

#[test]
fn a_day_without_midnight_begins_at_one() {
    // Santiago sets its clocks forward at midnight on 2022-09-11.
    let zone = Zone::Named("America/Santiago".to_string());
    let tz: chrono_tz::Tz = "America/Santiago".parse().unwrap();
    let noon = tz.with_ymd_and_hms(2022, 9, 11, 12, 0, 0).unwrap().timestamp();
    let one = tz.with_ymd_and_hms(2022, 9, 11, 1, 0, 0).unwrap().timestamp();
    assert_eq!(day_start(noon, &zone), one);
    assert_eq!(day_label(one, &zone), "2022-09-11");
    assert_eq!(day_label(one - 1, &zone), "2022-09-10");
}

#[test]
fn the_first_hour_that_exists_begins_the_day() {
    let day = EPOCH as i32 + 10;
    assert_eq!(first_existing_hour(day, &vec![Some(5), Some(6)]), 5);
    assert_eq!(first_existing_hour(day, &vec![None, None, Some(7)]), 7);
    assert_eq!(first_existing_hour(day, &vec![None; 6]), 10 * 86_400);
}

#[test]
fn an_unknown_zone_stands_for_utc() {
    let zone = Zone::Named("Nowhere/Atall".to_string());
    assert_eq!(day_label(TS, &zone), "2026-09-05");
    assert_eq!(day_start(TS, &zone), day_start(TS, &Zone::Utc));
}

#[test]
fn the_machines_own_zone_is_within_a_day() {
    let start = day_start(TS, &Zone::Local);
    assert!(start <= TS);
    assert!(TS - start < 26 * 3600);
    let local = chrono::Local.timestamp_opt(TS, 0).unwrap().date_naive();
    assert_eq!(
        day_label(TS, &Zone::Local),
        local.format("%Y-%m-%d").to_string()
    );
}

#[test]
fn instants_beyond_the_calendar_are_the_epoch() {
    for ts in [i64::MIN, i64::MAX, 8_210_266_876_800, -8_334_601_228_801] {
        assert_eq!(day_label(ts, &Zone::Utc), "1970-01-01");
        assert_eq!(day_label(ts, &Zone::Local), "1970-01-01");
        assert_eq!(timestamp_text(ts), "1970-01-01T00:00:00+00:00");
    }
    assert_eq!(day_label(8_210_266_876_799, &Zone::Utc), "+262142-12-31");
    assert_eq!(day_label(-8_334_601_228_800, &Zone::Utc), "-262143-01-01");
    // Where the local date would be beyond, the one in UTC is shown.
    assert_eq!(day_label(8_210_266_876_799, &Zone::Fixed(60)), "+262142-12-31");
    assert_eq!(day_label(-8_334_601_228_800, &Zone::Fixed(-60)), "-262143-01-01");
    assert_eq!(
        week_start(-8_334_601_228_800, &Zone::Utc),
        -8_334_601_228_800
    );
}

#[test]
fn dates_from_offsets() {
    assert_eq!(date_with_offset(0, None) as i64, EPOCH);
    assert_eq!(date_with_offset(-1, Some(0)) as i64, EPOCH - 1);
    assert_eq!(date_with_offset(-1, Some(1)) as i64, EPOCH);
    assert_eq!(date_with_offset(86_399, Some(1)) as i64, EPOCH + 1);
    assert_eq!(local_date(0, &Zone::Utc) as i64, EPOCH);
}

#[test]
fn dates_are_written_with_four_digits_of_the_year() {
    let day = |y, m, d| {
        chrono::Datelike::num_days_from_ce(&chrono::NaiveDate::from_ymd_opt(y, m, d).unwrap())
    };
    assert_eq!(date_as_text(day(1, 1, 1)), "0001-01-01");
    assert_eq!(date_as_text(day(0, 2, 29)), "0000-02-29");
    assert_eq!(date_as_text(day(-1, 12, 31)), "-0001-12-31");
    assert_eq!(date_as_text(day(9999, 12, 31)), "9999-12-31");
    assert_eq!(date_as_text(day(10_000, 1, 1)), "+10000-01-01");
    assert_eq!(month_of_date(day(2024, 2, 29)), "2024-02");
    assert_eq!(date_as_text(FIRST as i32), "-262143-01-01");
    assert_eq!(date_as_text(LAST as i32), "+262142-12-31");
}

#[test]
fn a_label_reads_back_as_the_beginning_of_its_day() {
    for zone in [Zone::Utc, Zone::Fixed(-3600), new_york(), auckland()] {
        for n in 0..400 {
            let ts = TS + n * 86_400;
            assert_eq!(
                parse_date(&day_label(ts, &zone), &zone),
                Some(day_start(ts, &zone))
            );
        }
    }
}

#[test]
fn dates_with_digits_that_name_no_day_are_none() {
    for text in ["2026-02-30", "2026-00-10", "2026-10-00", "2025-02-29", "2026-9-5x"] {
        assert_eq!(parse_date(text, &Zone::Utc), None);
    }
    assert_eq!(
        parse_date("2024-02-29", &Zone::Utc),
        Some(start_of_day(local_date(1_709_164_800, &Zone::Utc), &Zone::Utc))
    );
    // Fewer digits are read as well.
    assert_eq!(
        parse_date("2026-9-5", &Zone::Utc),
        parse_date("2026-09-05", &Zone::Utc)
    );
}

#[test]
fn labels_sort_by_date() {
    let mut labels: Vec<String> = (0..1000)
        .map(|n| day_label(TS - n * 86_400 * 11, &Zone::Utc))
        .collect();
    let mut by_time = labels.clone();
    by_time.reverse();
    labels.sort();
    assert_eq!(labels, by_time);
}

#[test]
fn instants_are_written_as_rfc_3339() {
    assert_eq!(timestamp_text(TS), "2026-09-05T13:56:32+00:00");
    assert_eq!(timestamp_text(-1), "1969-12-31T23:59:59+00:00");
}

#[test]
fn months_start_on_their_first_day() {
    for n in 0..500 {
        let ts = TS + n * 86_400;
        let start = month_start(ts, &new_york());
        assert!(start <= ts);
        assert!(day_label(start, &new_york()).ends_with("-01"));
        assert_eq!(month_label(start, &new_york()), month_label(ts, &new_york()));
    }
}

#[test]
fn a_week_begins_with_its_first_day() {
    for zone in [Zone::Utc, Zone::Fixed(45_900), Zone::Fixed(-39_600)] {
        for hour in 0..(24 * 8) {
            let ts = TS + hour * 3600;
            let days = day_start(ts, &zone) - week_start(ts, &zone);
            assert!((0..=6 * 86_400).contains(&days), "{days}");
            assert_eq!(days % 86_400, 0);
        }
    }
}

#[test]
fn a_day_label_reads_back_with_white_space_around_it() {
    for zone in [Zone::Utc, Zone::Fixed(-39_600), new_york(), auckland()] {
        for day in 0..400 {
            let ts = TS + day * 86_400;
            let begin = Some(day_start(ts, &zone));
            let label = day_label(ts, &zone);
            assert_eq!(parse_date(&label, &zone), begin);
            assert_eq!(parse_date(&format!(" \t{label}\n"), &zone), begin);
        }
    }
}
