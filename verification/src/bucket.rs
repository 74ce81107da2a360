//! Days, weeks and months of a time zone, for instants stored in UTC.
//!
//! "What did I use today" means the local day, and a local day is not always
//! 86 400 seconds long. So an instant is first turned into a date by the offset
//! that holds at that instant, and a date into an instant by asking the zone
//! when the date begins.
//!
//! A date is held as its number in the proleptic Gregorian calendar, in which
//! 1 January of the year 1 is day 1.

use vstd::arithmetic::div_mod::*;
use vstd::prelude::*;
use vstd::string::*;

use crate::text;
use crate::text::{push_dec_padded, trim};

verus! {

/// Seconds of a day without a change of the clock.
pub const DAY: i64 = 86_400;

/// The number of 1 January 1970.
pub const EPOCH: i64 = 719_163;

/// The first and the last day of the calendar that is reckoned with.
pub const FIRST: i64 = -95_746_129;

pub const LAST: i64 = 95_745_399;

/// How many hours of a day are tried for its beginning.
pub const HOURS: u32 = 6;

/// A time zone.
#[derive(Debug, Clone, PartialEq)]
pub enum Zone {
    /// The one that the machine is set to.
    Local,
    Utc,
    /// Always so many seconds east of UTC.
    Fixed(i32),
    /// One of the IANA database. A name that is not in it stands for UTC.
    Named(String),
}

impl Zone {
    /// A fixed offset is less than a day.
    pub open spec fn valid(self) -> bool {
        self matches Zone::Fixed(s) ==> -DAY < s < DAY
    }
}

// ---------------------------------------------------------------------------
// The calendar
// ---------------------------------------------------------------------------

/// Whether the year has a 29 February.
pub open spec fn leap(year: int) -> bool {
    year % 4 == 0 && (year % 100 != 0 || year % 400 == 0)
}

/// The days of a month.
pub open spec fn month_days(year: int, month: int) -> int {
    if month == 2 {
        if leap(year) {
            29
        } else {
            28
        }
    } else if month == 4 || month == 6 || month == 9 || month == 11 {
        30
    } else {
        31
    }
}

/// The days of the year before the month.
pub open spec fn days_before_month(year: int, month: int) -> int
    decreases month,
{
    if month <= 1 {
        0
    } else {
        days_before_month(year, month - 1) + month_days(year, month - 1)
    }
}

/// The days before the year.
pub open spec fn days_before_year(year: int) -> int {
    365 * (year - 1) + (year - 1) / 4 - (year - 1) / 100 + (year - 1) / 400
}

/// A date.
pub ghost struct Civil {
    pub year: int,
    pub month: int,
    pub day: int,
}

impl Civil {
    /// A date of the calendar.
    pub open spec fn valid(self) -> bool {
        1 <= self.month <= 12 && 1 <= self.day <= month_days(self.year, self.month)
    }

    /// Its number.
    pub open spec fn number(self) -> int {
        days_before_year(self.year) + days_before_month(self.year, self.month) + self.day
    }
}

/// The date with the number `day`.
pub open spec fn civil(day: int) -> Civil {
    choose|c: Civil| #[trigger] c.valid() && c.number() == day
}

/// The year, with four digits where those are enough, and a sign where they are
/// not or where the year is negative.
pub open spec fn year_text(year: int) -> Seq<char> {
    if 0 <= year <= 9999 {
        text::dec_padded(year as nat, 4)
    } else if year < 0 {
        seq!['-'] + text::dec_padded((-year) as nat, 4)
    } else {
        seq!['+'] + text::dec_padded(year as nat, 4)
    }
}

/// `YYYY-MM`.
pub open spec fn month_text(c: Civil) -> Seq<char> {
    year_text(c.year) + seq!['-'] + text::dec_padded(c.month as nat, 2)
}

/// `YYYY-MM-DD`.
pub open spec fn date_text(c: Civil) -> Seq<char> {
    month_text(c) + seq!['-'] + text::dec_padded(c.day as nat, 2)
}

/// Within the calendar.
pub open spec fn in_calendar(day: int) -> bool {
    FIRST <= day <= LAST
}

/// `NaiveDate::from_num_days_from_ce_opt`, then `year`, `month` and `day`: the
/// date of the proleptic Gregorian calendar with this number. The crate has one
/// for each of these numbers and for no others.
#[verifier::external_body]
fn civil_of(day: i32) -> (r: (i32, u32, u32))
    requires
        in_calendar(day as int),
    ensures
        (Civil { year: r.0 as int, month: r.1 as int, day: r.2 as int }).valid(),
        (Civil { year: r.0 as int, month: r.1 as int, day: r.2 as int }).number() == day,
{
    let date = chrono::NaiveDate::from_num_days_from_ce_opt(day).unwrap();
    (chrono::Datelike::year(&date), chrono::Datelike::month(&date), chrono::Datelike::day(&date))
}

/// A quotient grows by one exactly at the multiples of the divisor.
proof fn quotient_steps(n: int, d: int)
    requires
        d > 0,
    ensures
        n / d == (n - 1) / d + (if n % d == 0 {
            1int
        } else {
            0int
        }),
{
    let q = (n - 1) / d;
    let r = (n - 1) % d;
    lemma_fundamental_div_mod(n - 1, d);
    assert(d * q == q * d) by (nonlinear_arith);
    if r + 1 < d {
        lemma_fundamental_div_mod_converse(n, d, q, r + 1);
    } else {
        assert((q + 1) * d == q * d + d) by (nonlinear_arith);
        lemma_fundamental_div_mod_converse(n, d, q + 1, 0);
    }
}

#[verifier::spinoff_prover]
proof fn next_year(year: int)
    ensures
        days_before_year(year + 1) == days_before_year(year) + (if leap(year) {
            366int
        } else {
            365int
        }),
{
    quotient_steps(year, 4);
    quotient_steps(year, 100);
    quotient_steps(year, 400);
    if year % 400 == 0 {
        lemma_fundamental_div_mod(year, 400);
        lemma_fundamental_div_mod_converse(year, 100, 4 * (year / 400), 0);
    }
    if year % 100 == 0 {
        lemma_fundamental_div_mod(year, 100);
        lemma_fundamental_div_mod_converse(year, 4, 25 * (year / 100), 0);
    }
}

proof fn months_of_a_year(year: int, month: int)
    requires
        1 <= month <= 12,
    ensures
        0 <= days_before_month(year, month),
        days_before_month(year, month) + month_days(year, month) <= (if leap(year) {
            366int
        } else {
            365int
        }),
{
    reveal_with_fuel(days_before_month, 12);
}

proof fn months_are_ordered(year: int, a: int, b: int)
    requires
        1 <= a < b,
    ensures
        days_before_month(year, a) + month_days(year, a) <= days_before_month(year, b),
    decreases b,
{
    if a < b - 1 {
        months_are_ordered(year, a, b - 1);
    }
}

proof fn years_are_ordered(a: int, b: int)
    requires
        a < b,
    ensures
        days_before_year(a) + (if leap(a) {
            366int
        } else {
            365int
        }) <= days_before_year(b),
    decreases b - a,
{
    next_year(b - 1);
    if a < b - 1 {
        years_are_ordered(a, b - 1);
    }
}

/// An earlier date has the smaller number.
pub proof fn law_dates_are_numbered_in_order(a: Civil, b: Civil)
    requires
        a.valid(),
        b.valid(),
    ensures
        a.number() < b.number() <==> a.year < b.year || (a.year == b.year && (a.month < b.month || (
        a.month == b.month && a.day < b.day))),
        a.number() == b.number() ==> a == b,
{
    months_of_a_year(a.year, a.month);
    months_of_a_year(b.year, b.month);
    if a.year < b.year {
        years_are_ordered(a.year, b.year);
    } else if b.year < a.year {
        years_are_ordered(b.year, a.year);
    } else if a.month < b.month {
        months_are_ordered(a.year, a.month, b.month);
    } else if b.month < a.month {
        months_are_ordered(a.year, b.month, a.month);
    }
}

/// A valid date is the date of its number.
proof fn civil_is(c: Civil)
    requires
        c.valid(),
    ensures
        civil(c.number()) == c,
{
    let found = civil(c.number());
    assert(found.valid() && found.number() == c.number());
    law_dates_are_numbered_in_order(found, c);
}

/// The weekday, counted from Monday.
pub open spec fn weekday(day: int) -> int {
    (day - 1) % 7
}

/// The Monday of the day's week; the day itself in the days before the first
/// Monday of the calendar.
pub open spec fn monday(day: int) -> int {
    if day - weekday(day) < FIRST {
        day
    } else {
        day - weekday(day)
    }
}

/// The first day of the day's month.
pub open spec fn first_of_month(day: int) -> int {
    day - (civil(day).day - 1)
}

// ---------------------------------------------------------------------------
// Instants and dates
// ---------------------------------------------------------------------------

/// Instants that fall on a day of the calendar in UTC.
pub open spec fn representable(ts: int) -> bool {
    in_calendar(ts / DAY as int + EPOCH)
}

/// The date at the instant, where clocks are `offset` seconds ahead of UTC.
pub open spec fn day_at(ts: int, offset: int) -> int {
    (ts + offset) / DAY as int + EPOCH
}

/// The date at the instant, where the offset is known: the date in UTC where it
/// is not, and 1 January 1970 for instants beyond the calendar. A ledger row is
/// never worth a panic.
pub open spec fn day_with(ts: int, offset: Option<i32>) -> int {
    if !representable(ts) {
        EPOCH as int
    } else {
        match offset {
            Some(o) => if in_calendar(day_at(ts, o as int)) {
                day_at(ts, o as int)
            } else {
                day_at(ts, 0)
            },
            None => day_at(ts, 0),
        }
    }
}

/// Whole days since the epoch, rounded down, as the number of a day.
fn utc_day(ts: i64) -> (r: i64)
    ensures
        r == ts as int / DAY as int + EPOCH,
{
    // Moved up by a whole number of days, so that nothing is negative.
    let moved: u128 = (ts as i128 + 0x1_0000_0000_0000i128 * 86_400i128) as u128;
    (moved / 86_400u128) as i64 - 0x1_0000_0000_0000i64 + EPOCH
}

/// The date at the instant, given the offset that holds there.
pub fn date_with_offset(ts: i64, offset: Option<i32>) -> (r: i32)
    ensures
        r == day_with(ts as int, offset),
        in_calendar(r as int),
{
    let utc = utc_day(ts);
    if utc < FIRST || utc > LAST {
        return EPOCH as i32;
    }
    match offset {
        Some(o) => {
            let day = utc_day(ts + o as i64);
            if FIRST <= day && day <= LAST {
                day as i32
            } else {
                utc as i32
            }
        },
        None => utc as i32,
    }
}

/// How far ahead of UTC the clocks of a zone of the IANA database are at an
/// instant, if there is such a zone and such an instant.
pub uninterp spec fn named_offset(name: Seq<char>, ts: i64) -> Option<i32>;

/// `TimeZone::timestamp_opt` and `earliest` on a `chrono_tz::Tz`, then the offset
/// of what comes: it depends on the name and the instant, and on the database
/// that is compiled in. An offset is less than a day.
#[verifier::external_body]
fn offset_in(name: &str, ts: i64) -> (r: Option<i32>)
    ensures
        r == named_offset(name@, ts),
        r matches Some(o) ==> -DAY < o < DAY,
{
    let zone: chrono_tz::Tz = name.parse().ok()?;
    let there = chrono::TimeZone::timestamp_opt(&zone, ts, 0).earliest()?;
    Some(chrono::Offset::fix(there.offset()).local_minus_utc())
}

/// `TimeZone::timestamp_opt` and `earliest` on `chrono::Local`, then the offset of
/// what comes. It depends on what the machine is set to; that it is less than a
/// day holds of every machine, and that there is one exactly for the instants of
/// the calendar.
#[verifier::external_body]
fn offset_here(ts: i64) -> (r: Option<i32>)
    ensures
        r matches Some(o) ==> -DAY < o < DAY,
        r is Some <==> representable(ts as int),
{
    let here = chrono::TimeZone::timestamp_opt(&chrono::Local, ts, 0).earliest()?;
    Some(here.offset().local_minus_utc())
}

/// The offset of a zone other than the machine's.
pub open spec fn offset_of(zone: Zone, ts: i64) -> Option<i32> {
    match zone {
        Zone::Local => None,
        Zone::Utc => Some(0),
        Zone::Fixed(s) => Some(s),
        Zone::Named(name) => named_offset(name@, ts),
    }
}

/// An offset that some zone may have.
pub open spec fn small(offset: Option<i32>) -> bool {
    offset matches Some(o) ==> -DAY < o < DAY
}

/// Whether this is what the machine may answer, asked for the offset at the
/// instant.
pub closed spec fn machine_offset(ts: i64, offset: Option<i32>) -> bool {
    call_ensures(offset_here, (ts,), offset)
}

/// An answer of the machine is an offset that some zone may have, and there is one
/// exactly for the instants of the calendar.
pub proof fn machine_offset_is_small(ts: i64, offset: Option<i32>)
    requires
        machine_offset(ts, offset),
    ensures
        small(offset),
        offset is Some <==> representable(ts as int),
{
}

/// Asks for an offset, so that what comes is known to be an answer.
fn ask_offset<F: Fn(i64) -> Option<i32>>(f: F, ts: i64) -> (r: Option<i32>)
    requires
        call_requires(f, (ts,)),
    ensures
        call_ensures(f, (ts,), r),
{
    f(ts)
}

/// Whether the zone may show the date at the instant. In the machine's own zone
/// it is the date under an offset that the machine answers for that instant.
pub open spec fn shows(zone: Zone, ts: i64, day: int) -> bool {
    match zone {
        Zone::Local => exists|offset: Option<i32>| #[trigger]
            machine_offset(ts, offset) && day == day_with(ts as int, offset),
        _ => day == day_with(ts as int, offset_of(zone, ts)),
    }
}

/// The date that the zone shows at the instant.
pub fn local_date(ts: i64, zone: &Zone) -> (r: i32)
    requires
        zone.valid(),
    ensures
        shows(*zone, ts, r as int),
        in_calendar(r as int),
{
    let offset = match zone {
        Zone::Local => ask_offset(offset_here, ts),
        Zone::Utc => Some(0),
        Zone::Fixed(s) => Some(*s),
        Zone::Named(name) => offset_in(name.as_str(), ts),
    };
    assert(zone is Local ==> machine_offset(ts, offset));
    assert(small(offset));
    date_with_offset(ts, offset)
}

/// The full hour of the date, read as UTC.
pub open spec fn wall(day: int, hour: int) -> int {
    (day - EPOCH) * DAY + hour * 3600
}

/// When a zone of the IANA database shows the full hour of the date, the first
/// time it does, if it does.
pub uninterp spec fn named_instant(name: Seq<char>, day: i32, hour: u32) -> Option<i64>;

/// `TimeZone::from_local_datetime` and `earliest` on a `chrono_tz::Tz`, then
/// `timestamp`: it depends on the name, the date and the hour, and on the
/// database that is compiled in. What comes is the full hour less an offset.
#[verifier::external_body]
fn instant_in(name: &str, day: i32, hour: u32) -> (r: Option<i64>)
    ensures
        r == named_instant(name@, day, hour),
        r matches Some(t) ==> -DAY < t - wall(day as int, hour as int) < DAY,
{
    let zone: chrono_tz::Tz = name.parse().ok()?;
    let hour = chrono::NaiveDate::from_num_days_from_ce_opt(day)?.and_hms_opt(hour, 0, 0)?;
    Some(chrono::TimeZone::from_local_datetime(&zone, &hour).earliest()?.timestamp())
}

/// `TimeZone::from_local_datetime` and `earliest` on `chrono::Local`, then
/// `timestamp`. It depends on what the machine is set to; that what comes is the
/// full hour less an offset holds of every machine.
#[verifier::external_body]
fn instant_here(day: i32, hour: u32) -> (r: Option<i64>)
    ensures
        r matches Some(t) ==> -DAY < t - wall(day as int, hour as int) < DAY,
{
    let hour = chrono::NaiveDate::from_num_days_from_ce_opt(day)?.and_hms_opt(hour, 0, 0)?;
    Some(chrono::TimeZone::from_local_datetime(&chrono::Local, &hour).earliest()?.timestamp())
}

/// Whether this is what the machine may answer, asked when it shows the full hour
/// of the date.
pub closed spec fn machine_instant(day: i32, hour: u32, at: Option<i64>) -> bool {
    call_ensures(instant_here, (day, hour), at)
}

/// An answer of the machine is the full hour less an offset that some zone may
/// have.
pub proof fn machine_instant_is_near(day: i32, hour: u32, at: Option<i64>)
    requires
        machine_instant(day, hour, at),
    ensures
        at matches Some(t) ==> -DAY < t - wall(day as int, hour as int) < DAY,
{
}

/// Asks for an instant, so that what comes is known to be an answer.
fn ask_instant<F: Fn(i32, u32) -> Option<i64>>(f: F, day: i32, hour: u32) -> (r: Option<i64>)
    requires
        call_requires(f, (day, hour)),
    ensures
        call_ensures(f, (day, hour), r),
{
    f(day, hour)
}

/// When a zone other than the machine's shows the full hour of the date.
pub open spec fn instant_of(zone: Zone, day: int, hour: int) -> Option<int> {
    match zone {
        Zone::Local => None,
        Zone::Utc => Some(wall(day, hour)),
        Zone::Fixed(s) => if representable(wall(day, hour) - s) {
            Some(wall(day, hour) - s)
        } else {
            None
        },
        Zone::Named(name) => match named_instant(name@, day as i32, hour as u32) {
            Some(t) => Some(t as int),
            None => None,
        },
    }
}

/// The first hour that exists, or midnight in UTC if none does. Midnight does
/// not exist on every day: some zones set their clocks forward at midnight.
pub open spec fn first_hour(midnight: int, hours: Seq<Option<int>>) -> int
    decreases hours.len(),
{
    if hours.len() == 0 {
        midnight
    } else {
        match hours[0] {
            Some(t) => t,
            None => first_hour(midnight, hours.drop_first()),
        }
    }
}

/// The instants of some hours, as numbers.
pub open spec fn instants(hours: Seq<Option<i64>>) -> Seq<Option<int>> {
    hours.map_values(
        |o: Option<i64>|
            match o {
                Some(t) => Some(t as int),
                None => None,
            },
    )
}

/// The beginning of the date, given when each of its first hours is.
pub fn first_existing_hour(day: i32, hours: &Vec<Option<i64>>) -> (r: i64)
    requires
        in_calendar(day as int),
    ensures
        r == first_hour(wall(day as int, 0), instants(hours@)),
{
    let mut i: usize = 0;
    let ghost all = instants(hours@);
    let ghost midnight = wall(day as int, 0);
    assert(all.skip(0) =~= all);
    while i < hours.len()
        invariant
            i <= hours@.len(),
            all == instants(hours@),
            midnight == wall(day as int, 0),
            first_hour(midnight, all) == first_hour(midnight, all.skip(i as int)),
        decreases hours@.len() - i,
    {
        match hours[i] {
            Some(t) => {
                assert(all.skip(i as int)[0] == Some(t as int));
                return t;
            },
            None => {
                assert(all.skip(i as int)[0] is None);
                assert(all.skip(i as int).drop_first() =~= all.skip(i + 1));
            },
        }
        i += 1;
    }
    (day as i64 - EPOCH) * DAY
}

/// Hours of the date, each off the full hour in UTC by less than a day.
pub open spec fn near_hours(day: int, hours: Seq<Option<int>>) -> bool {
    &&& hours.len() <= HOURS
    &&& forall|h: int|
        0 <= h < hours.len() && #[trigger] hours[h] is Some ==> -DAY < hours[h]->0 - wall(day, h)
            < DAY
}

/// The beginning of the date in a zone other than the machine's.
pub open spec fn start_of(zone: Zone, day: int) -> int {
    first_hour(wall(day, 0), Seq::new(HOURS as nat, |h: int| instant_of(zone, day, h)))
}

/// What the machine may answer, asked for the hours of the date one after the
/// other: until one exists, or for all that are tried.
pub open spec fn machine_hours(day: int, hours: Seq<Option<i64>>) -> bool {
    &&& hours.len() == HOURS || (0 < hours.len() < HOURS && hours.last() is Some)
    &&& forall|h: int|
        0 <= h < hours.len() ==> #[trigger] machine_instant(day as i32, h as u32, hours[h])
}

/// Whether the zone may begin the date at the instant. In the machine's own zone
/// it is the first hour that exists of those that the machine answers for.
pub open spec fn starts(zone: Zone, day: int, ts: int) -> bool {
    match zone {
        Zone::Local => exists|hours: Seq<Option<i64>>| #[trigger]
            machine_hours(day, hours) && ts == first_hour(wall(day, 0), instants(hours)),
        _ => ts == start_of(zone, day),
    }
}

/// Only the first hour that exists matters.
proof fn later_hours_do_not_matter(
    midnight: int,
    hours: Seq<Option<int>>,
    all: Seq<Option<int>>,
)
    requires
        hours.len() <= all.len(),
        forall|h: int| 0 <= h < hours.len() ==> hours[h] == all[h],
        hours.len() == all.len() || (hours.len() > 0 && hours.last() is Some),
    ensures
        first_hour(midnight, hours) == first_hour(midnight, all),
    decreases hours.len(),
{
    if hours.len() > 0 && hours[0] is None {
        later_hours_do_not_matter(midnight, hours.drop_first(), all.drop_first());
    }
}

fn instant_at(day: i32, hour: u32, zone: &Zone) -> (r: Option<i64>)
    requires
        zone.valid(),
        in_calendar(day as int),
        hour < HOURS,
    ensures
        r matches Some(t) ==> -DAY < t - wall(day as int, hour as int) < DAY,
        zone is Local ==> machine_instant(day, hour, r),
        zone !is Local ==> (match r {
            Some(t) => Some(t as int),
            None => None,
        }) == instant_of(*zone, day as int, hour as int),
{
    let utc: i64 = (day as i64 - EPOCH) * DAY + hour as i64 * 3600;
    match zone {
        Zone::Local => ask_instant(instant_here, day, hour),
        Zone::Utc => Some(utc),
        Zone::Fixed(s) => {
            let t: i64 = utc - *s as i64;
            let on = utc_day(t);
            if FIRST <= on && on <= LAST {
                Some(t)
            } else {
                None
            }
        },
        Zone::Named(name) => instant_in(name.as_str(), day, hour),
    }
}

/// The beginning of the date.
pub fn start_of_day(date: i32, zone: &Zone) -> (r: i64)
    requires
        zone.valid(),
        in_calendar(date as int),
    ensures
        starts(*zone, date as int, r as int),
{
    let mut hours: Vec<Option<i64>> = Vec::new();
    let mut hour: u32 = 0;
    let mut found = false;
    while hour < HOURS && !found
        invariant
            zone.valid(),
            in_calendar(date as int),
            hour <= HOURS,
            hours@.len() == hour,
            near_hours(date as int, instants(hours@)),
            zone is Local ==> forall|h: int|
                0 <= h < hour ==> #[trigger] machine_instant(date, h as u32, hours@[h]),
            zone !is Local ==> forall|h: int|
                0 <= h < hour ==> #[trigger] instants(hours@)[h] == instant_of(
                    *zone,
                    date as int,
                    h,
                ),
            found ==> hour > 0 && hours@.last() is Some && instants(hours@).last() is Some,
        decreases HOURS - hour,
    {
        let ghost before = instants(hours@);
        let ghost asked = hours@;
        let at = instant_at(date, hour, zone);
        found = at.is_some();
        hours.push(at);
        assert(instants(hours@).drop_last() =~= before);
        assert forall|h: int| 0 <= h < hours@.len() && #[trigger] instants(
            hours@,
        )[h] is Some implies -DAY < instants(hours@)[h]->0 - wall(date as int, h) < DAY by {
            if h < hour {
                assert(instants(hours@)[h] == before[h]);
            }
        }
        hour += 1;
        assert forall|h: int| zone is Local && 0 <= h < hour implies #[trigger] machine_instant(
            date,
            h as u32,
            hours@[h],
        ) by {
            if h < hour - 1 {
                assert(machine_instant(date, h as u32, asked[h]));
                assert(hours@[h] == asked[h]);
            }
        }
        assert forall|h: int| zone !is Local && 0 <= h < hour implies #[trigger] instants(
            hours@,
        )[h] == instant_of(*zone, date as int, h) by {
            if h < hour - 1 {
                assert(instants(hours@)[h] == before[h]);
            }
        }
    }
    proof {
        if zone !is Local {
            later_hours_do_not_matter(
                wall(date as int, 0),
                instants(hours@),
                Seq::new(HOURS as nat, |h: int| instant_of(*zone, date as int, h)),
            );
        } else {
            assert(machine_hours(date as int, hours@));
        }
    }
    first_existing_hour(date, &hours)
}

// ---------------------------------------------------------------------------
// Buckets
// ---------------------------------------------------------------------------

/// `r` is when the day that holds `ts` began.
pub open spec fn day_begins(zone: Zone, ts: i64, r: int) -> bool {
    exists|day: int| #[trigger] shows(zone, ts, day) && starts(zone, day, r)
}

/// `r` is when the week that holds `ts` began.
pub open spec fn week_begins(zone: Zone, ts: i64, r: int) -> bool {
    exists|day: int| #[trigger] shows(zone, ts, day) && starts(zone, monday(day), r)
}

/// `r` is when the month that holds `ts` began.
pub open spec fn month_begins(zone: Zone, ts: i64, r: int) -> bool {
    exists|day: int| #[trigger] shows(zone, ts, day) && starts(zone, first_of_month(day), r)
}

/// `r` is the day that holds `ts`.
pub open spec fn day_labelled(zone: Zone, ts: i64, r: Seq<char>) -> bool {
    exists|day: int| #[trigger] shows(zone, ts, day) && r == date_text(civil(day))
}

/// `r` is the day on which the week that holds `ts` began.
pub open spec fn week_labelled(zone: Zone, ts: i64, r: Seq<char>) -> bool {
    exists|start: i64| #[trigger]
        week_begins(zone, ts, start as int) && day_labelled(zone, start, r)
}

/// `r` is the month that holds `ts`.
pub open spec fn month_labelled(zone: Zone, ts: i64, r: Seq<char>) -> bool {
    exists|day: int| #[trigger] shows(zone, ts, day) && r == month_text(civil(day))
}

/// When the local day that holds `ts` began.
pub fn day_start(ts: i64, tz: &Zone) -> (r: i64)
    requires
        tz.valid(),
    ensures
        day_begins(*tz, ts, r as int),
{
    let day = local_date(ts, tz);
    let r = start_of_day(day, tz);
    assert(shows(*tz, ts, day as int) && starts(*tz, day as int, r as int));
    r
}

/// When the Monday of the local week that holds `ts` began.
pub fn week_start(ts: i64, tz: &Zone) -> (r: i64)
    requires
        tz.valid(),
    ensures
        week_begins(*tz, ts, r as int),
{
    let day = local_date(ts, tz);
    let back: i32 = ((day as i64 - 1 + 7 * 0x1000_0000i64) as u64 % 7) as i32;
    let first: i32 = if (day - back) as i64 >= FIRST {
        day - back
    } else {
        day
    };
    let r = start_of_day(first, tz);
    assert(shows(*tz, ts, day as int) && starts(*tz, monday(day as int), r as int));
    r
}

/// When the first day of the local month that holds `ts` began.
pub fn month_start(ts: i64, tz: &Zone) -> (r: i64)
    requires
        tz.valid(),
    ensures
        month_begins(*tz, ts, r as int),
{
    let day = local_date(ts, tz);
    let (year, month, of_month) = civil_of(day);
    proof {
        let c = Civil { year: year as int, month: month as int, day: of_month as int };
        civil_is(c);
        month_begins_in_calendar(day as int);
    }
    let first: i32 = day - (of_month as i32 - 1);
    let r = start_of_day(first, tz);
    assert(shows(*tz, ts, day as int) && starts(*tz, first_of_month(day as int), r as int));
    r
}

/// The calendar begins with the first day of a month.
proof fn month_begins_in_calendar(day: int)
    requires
        in_calendar(day),
        civil(day).valid(),
        civil(day).number() == day,
    ensures
        in_calendar(first_of_month(day)),
        civil(first_of_month(day)) == (Civil { day: 1, ..civil(day) }),
{
    let c = civil(day);
    let first = Civil { day: 1, ..c };
    civil_is(first);
    let start = Civil { year: -262_143, month: 1, day: 1 };
    assert(start.number() == FIRST);
    law_dates_are_numbered_in_order(c, start);
    law_dates_are_numbered_in_order(first, start);
}

fn push_year(out: &mut String, year: i32)
    ensures
        final(out)@ == old(out)@ + year_text(year as int),
{
    if 0 <= year && year <= 9999 {
        push_dec_padded(out, year as u128, 4);
    } else if year < 0 {
        out.push('-');
        push_dec_padded(out, (-(year as i64)) as u128, 4);
        assert(out@ =~= old(out)@ + year_text(year as int));
    } else {
        out.push('+');
        push_dec_padded(out, year as u128, 4);
        assert(out@ =~= old(out)@ + year_text(year as int));
    }
}

/// The month of a date as `YYYY-MM`.
pub fn month_of_date(day: i32) -> (r: String)
    requires
        in_calendar(day as int),
    ensures
        r@ == month_text(civil(day as int)),
{
    let (year, month, of_month) = civil_of(day);
    let ghost c = Civil { year: year as int, month: month as int, day: of_month as int };
    proof {
        civil_is(c);
    }
    let mut out = String::new();
    push_year(&mut out, year);
    out.push('-');
    push_dec_padded(&mut out, month as u128, 2);
    assert(out@ =~= month_text(c));
    out
}

/// A date as `YYYY-MM-DD`.
pub fn date_as_text(day: i32) -> (r: String)
    requires
        in_calendar(day as int),
    ensures
        r@ == date_text(civil(day as int)),
{
    let mut out = month_of_date(day);
    let (year, month, of_month) = civil_of(day);
    let ghost c = Civil { year: year as int, month: month as int, day: of_month as int };
    proof {
        civil_is(c);
    }
    out.push('-');
    push_dec_padded(&mut out, of_month as u128, 2);
    assert(out@ =~= date_text(c));
    out
}

/// The local day that holds `ts`, as `YYYY-MM-DD`.
pub fn day_label(ts: i64, tz: &Zone) -> (r: String)
    requires
        tz.valid(),
    ensures
        day_labelled(*tz, ts, r@),
{
    let day = local_date(ts, tz);
    let r = date_as_text(day);
    assert(shows(*tz, ts, day as int) && r@ == date_text(civil(day as int)));
    r
}

/// The day on which the local week that holds `ts` began, as `YYYY-MM-DD`.
pub fn week_label(ts: i64, tz: &Zone) -> (r: String)
    requires
        tz.valid(),
    ensures
        week_labelled(*tz, ts, r@),
{
    let start = week_start(ts, tz);
    let r = day_label(start, tz);
    assert(week_begins(*tz, ts, start as int) && day_labelled(*tz, start, r@));
    r
}

/// The local month that holds `ts`, as `YYYY-MM`.
pub fn month_label(ts: i64, tz: &Zone) -> (r: String)
    requires
        tz.valid(),
    ensures
        month_labelled(*tz, ts, r@),
{
    let day = local_date(ts, tz);
    let r = month_of_date(day);
    assert(shows(*tz, ts, day as int) && r@ == month_text(civil(day as int)));
    r
}

/// An instant in UTC as RFC 3339 writes it; the epoch for what is beyond the
/// calendar.
pub open spec fn instant_text(ts: int) -> Seq<char> {
    let at = if representable(ts) {
        ts
    } else {
        0
    };
    let second = at % DAY as int;
    date_text(civil(day_at(at, 0))) + seq!['T'] + text::dec_padded((second / 3600) as nat, 2) + seq![
        ':',
    ] + text::dec_padded((second / 60 % 60) as nat, 2) + seq![':'] + text::dec_padded(
        (second % 60) as nat,
        2,
    ) + seq!['+', '0', '0', ':', '0', '0']
}

/// `DateTime::from_timestamp`, the default where there is none, then
/// `to_rfc3339`: date and time of the instant in UTC, to the second.
#[verifier::external_body]
fn to_rfc3339(ts: i64) -> (r: String)
    ensures
        r@ == instant_text(ts as int),
{
    chrono::DateTime::from_timestamp(ts, 0).unwrap_or_default().to_rfc3339()
}

/// An instant in UTC as RFC 3339 writes it.
pub fn timestamp_text(ts: i64) -> (r: String)
    ensures
        r@ == instant_text(ts as int),
{
    to_rfc3339(ts)
}

// ---------------------------------------------------------------------------
// Reading dates
// ---------------------------------------------------------------------------

/// A decimal digit.
pub open spec fn is_digit(c: char) -> bool {
    '0' <= c <= '9'
}

/// The number of a decimal digit.
pub open spec fn value(c: char) -> int {
    c as int - 48
}

/// Four digits, two and two, with hyphens between them.
pub open spec fn iso_shape(t: Seq<char>) -> bool {
    &&& t.len() == 10
    &&& t[4] == '-' && t[7] == '-'
    &&& is_digit(t[0]) && is_digit(t[1]) && is_digit(t[2]) && is_digit(t[3])
    &&& is_digit(t[5]) && is_digit(t[6])
    &&& is_digit(t[8]) && is_digit(t[9])
}

/// What the digits say.
pub open spec fn iso_date(t: Seq<char>) -> Civil {
    Civil {
        year: 1000 * value(t[0]) + 100 * value(t[1]) + 10 * value(t[2]) + value(t[3]),
        month: 10 * value(t[5]) + value(t[6]),
        day: 10 * value(t[8]) + value(t[9]),
    }
}

/// The number of the date that a text denotes, if it denotes one.
pub uninterp spec fn parsed_date(t: Seq<char>) -> Option<i32>;

/// `NaiveDate::parse_from_str` with `%Y-%m-%d`, then `num_days_from_ce`. It
/// depends on the text alone. A text of four digits, two and two is the date
/// that they say, and no date where the calendar has none such. What other
/// texts are dates, with fewer digits or with a sign, is only named.
#[verifier::external_body]
fn parse_ymd(t: &str) -> (r: Option<i32>)
    ensures
        r == parsed_date(t@),
        r matches Some(day) ==> in_calendar(day as int),
        iso_shape(t@) ==> (r is Some <==> iso_date(t@).valid()),
        iso_shape(t@) ==> (r matches Some(day) ==> day == iso_date(t@).number()),
{
    let date = chrono::NaiveDate::parse_from_str(t, "%Y-%m-%d").ok()?;
    Some(chrono::Datelike::num_days_from_ce(&date))
}

/// `r` is when the date that a text denotes begins, if it denotes one. Of a text
/// of four digits, two and two, the date is what the digits say.
pub open spec fn date_read(t: Seq<char>, zone: Zone, r: Option<i64>) -> bool {
    let date = text::trimmed(t);
    &&& r is Some <==> parsed_date(date) is Some
    &&& r matches Some(ts) ==> starts(zone, parsed_date(date)->0 as int, ts as int)
    &&& iso_shape(date) ==> (r is Some <==> iso_date(date).valid())
    &&& iso_shape(date) ==> (r matches Some(ts) ==> starts(
        zone,
        iso_date(date).number(),
        ts as int,
    ))
}

/// When the date that a text denotes begins, if it denotes one. White space
/// around the date does not matter.
pub fn parse_date(text: &str, tz: &Zone) -> (r: Option<i64>)
    requires
        tz.valid(),
    ensures
        date_read(text@, *tz, r),
{
    match parse_ymd(trim(text).as_str()) {
        Some(date) => Some(start_of_day(date, tz)),
        None => None,
    }
}

// ---------------------------------------------------------------------------
// Laws
// ---------------------------------------------------------------------------

/// The day after a date.
proof fn next_day(c: Civil) -> (next: Civil)
    requires
        c.valid(),
    ensures
        next.valid(),
        next.number() == c.number() + 1,
{
    if c.day < month_days(c.year, c.month) {
        Civil { day: c.day + 1, ..c }
    } else if c.month < 12 {
        Civil { month: c.month + 1, day: 1, ..c }
    } else {
        next_year(c.year);
        reveal_with_fuel(days_before_month, 12);
        Civil { year: c.year + 1, month: 1, day: 1 }
    }
}

/// The day before a date.
proof fn day_before(c: Civil) -> (before: Civil)
    requires
        c.valid(),
    ensures
        before.valid(),
        before.number() == c.number() - 1,
{
    if c.day > 1 {
        Civil { day: c.day - 1, ..c }
    } else if c.month > 1 {
        Civil { month: c.month - 1, day: month_days(c.year, c.month - 1), ..c }
    } else {
        next_year(c.year - 1);
        reveal_with_fuel(days_before_month, 12);
        Civil { year: c.year - 1, month: 12, day: 31 }
    }
}

/// Every number is that of exactly one date.
pub proof fn law_every_number_is_a_date(day: int)
    ensures
        civil(day).valid(),
        civil(day).number() == day,
        forall|c: Civil| #[trigger] c.valid() && c.number() == day ==> c == civil(day),
{
    let c = date_numbered(day);
    civil_is(c);
    assert forall|other: Civil| #[trigger] other.valid() && other.number() == day implies other
        == civil(day) by {
        law_dates_are_numbered_in_order(other, c);
    }
}

proof fn date_numbered(day: int) -> (c: Civil)
    ensures
        c.valid(),
        c.number() == day,
    decreases (if day >= 1 {
        day - 1
    } else {
        1 - day
    }),
{
    if day == 1 {
        Civil { year: 1, month: 1, day: 1 }
    } else if day > 1 {
        let before = date_numbered(day - 1);
        next_day(before)
    } else {
        let after = date_numbered(day + 1);
        day_before(after)
    }
}

/// Weeks begin on a Monday, at most six days back.
pub proof fn law_weeks_begin_on_monday(day: int)
    requires
        day - weekday(day) >= FIRST,
    ensures
        weekday(monday(day)) == 0,
        monday(day) <= day < monday(day) + 7,
        monday(monday(day)) == monday(day),
{
}

/// Months begin on their first day.
pub proof fn law_months_begin_on_their_first_day(day: int)
    requires
        in_calendar(day),
    ensures
        civil(first_of_month(day)) == (Civil { day: 1, ..civil(day) }),
        first_of_month(day) <= day,
        in_calendar(first_of_month(day)),
{
    law_every_number_is_a_date(day);
    month_begins_in_calendar(day);
}

/// The offset of a zone whose clocks never change.
pub open spec fn steady(zone: Zone) -> Option<int> {
    match zone {
        Zone::Utc => Some(0),
        Zone::Fixed(s) => Some(s as int),
        _ => None,
    }
}

/// Where clocks never change, a day begins at or before each of its instants and
/// ends within 86 400 seconds, and its beginning is on the same day: an instant
/// falls into exactly one day. Left out are the instants so close to the ends of
/// the calendar that their day, or its beginning, is beyond them.
pub proof fn law_a_day_holds_its_instants(zone: Zone, ts: i64, begin: i64)
    requires
        zone.valid(),
        steady(zone) is Some,
        day_begins(zone, ts, begin as int),
        representable(ts as int),
        in_calendar(day_at(ts as int, steady(zone)->0)),
        representable(
            wall(day_at(ts as int, steady(zone)->0), 0) - steady(zone)->0,
        ),
    ensures
        begin <= ts < begin + DAY,
        offset_of(zone, begin) == offset_of(zone, ts),
        day_with(begin as int, offset_of(zone, begin)) == day_with(
            ts as int,
            offset_of(zone, ts),
        ),
        day_begins(zone, begin, begin as int),
{
    let s = steady(zone)->0;
    let day = day_at(ts as int, s);
    let hours = Seq::new(HOURS as nat, |h: int| instant_of(zone, day, h));
    assert(hours[0] == Some(wall(day, 0) - s));
    assert(shows(zone, ts, day));
    assert(begin == wall(day, 0) - s);
    assert(day_at(begin as int, s) == day) by {
        assert(begin + s == (day - EPOCH) * DAY);
    }
    assert(shows(zone, begin, day));
}

/// Where clocks never change, a week begins when its Monday does: no later than
/// any of its days, and a whole number of days before, at most six. Left out are
/// the instants so close to the ends of the calendar that one of the two
/// beginnings is beyond them.
pub proof fn law_a_week_begins_with_its_first_day(zone: Zone, ts: i64, day: int, week: int)
    requires
        zone.valid(),
        steady(zone) is Some,
        day_begins(zone, ts, day),
        week_begins(zone, ts, week),
        representable(ts as int),
        in_calendar(day_at(ts as int, steady(zone)->0)),
        representable(wall(day_at(ts as int, steady(zone)->0), 0) - steady(zone)->0),
        representable(
            wall(monday(day_at(ts as int, steady(zone)->0)), 0) - steady(zone)->0,
        ),
    ensures
        week <= day <= week + 6 * DAY,
        (day - week) % DAY as int == 0,
{
    let s = steady(zone)->0;
    let on = day_at(ts as int, s);
    let first = monday(on);
    let today = Seq::new(HOURS as nat, |h: int| instant_of(zone, on, h));
    let monday_hours = Seq::new(HOURS as nat, |h: int| instant_of(zone, first, h));
    assert(today[0] == Some(wall(on, 0) - s));
    assert(monday_hours[0] == Some(wall(first, 0) - s));
    assert(shows(zone, ts, on));
    assert(day == wall(on, 0) - s);
    assert(week == wall(first, 0) - s);
    assert(day - week == (on - first) * DAY);
}

/// Where clocks never change, a later instant never falls on an earlier day.
pub proof fn law_days_follow_each_other(zone: Zone, a: i64, b: i64)
    requires
        zone.valid(),
        steady(zone) is Some,
        a <= b,
        representable(a as int),
        representable(b as int),
        in_calendar(day_at(a as int, steady(zone)->0)),
        in_calendar(day_at(b as int, steady(zone)->0)),
    ensures
        day_with(a as int, offset_of(zone, a)) <= day_with(b as int, offset_of(zone, b)),
{
}

/// Instants of one date have one day label and one beginning of the day, in every
/// zone but the machine's, of which less is known: two rows of the same date are
/// never filed apart.
pub proof fn law_one_date_is_one_bucket(
    zone: Zone,
    a: i64,
    b: i64,
    label_a: Seq<char>,
    label_b: Seq<char>,
    begin_a: int,
    begin_b: int,
)
    requires
        zone !is Local,
        day_with(a as int, offset_of(zone, a)) == day_with(b as int, offset_of(zone, b)),
        day_labelled(zone, a, label_a),
        day_labelled(zone, b, label_b),
        day_begins(zone, a, begin_a),
        day_begins(zone, b, begin_b),
    ensures
        label_a == label_b,
        begin_a == begin_b,
{
}

/// The date that was written is the date that is read.
pub proof fn law_dates_are_written_as_they_are_read(c: Civil)
    requires
        c.valid(),
        0 <= c.year <= 9999,
    ensures
        iso_shape(date_text(c)),
        iso_date(date_text(c)) == c,
        text::trimmed(date_text(c)) == date_text(c),
{
    reveal_with_fuel(text::fits, 5);
    let y = c.year as nat;
    let m = c.month as nat;
    let d = c.day as nat;
    text::padded_steps(y, 4);
    text::padded_steps(y / 10, 3);
    text::padded_steps(y / 10 / 10, 2);
    text::padded_steps(y / 10 / 10 / 10, 1);
    text::padded_steps(m, 2);
    text::padded_steps(m / 10, 1);
    text::padded_steps(d, 2);
    text::padded_steps(d / 10, 1);
    let t = date_text(c);
    assert(t.len() == 10);
    assert(t[0] == text::digit(y / 10 / 10 / 10 % 10));
    assert(t[1] == text::digit(y / 10 / 10 % 10));
    assert(t[2] == text::digit(y / 10 % 10));
    assert(t[3] == text::digit(y % 10));
    assert(t[5] == text::digit(m / 10 % 10));
    assert(t[6] == text::digit(m % 10));
    assert(t[8] == text::digit(d / 10 % 10));
    assert(t[9] == text::digit(d % 10));
    assert(!text::is_space(t[0]));
    assert(text::trim_front(t) == t);
    assert(!text::is_space(t.last()));
}

/// A day label reads back as the date it shows, whatever white space is around
/// it, and as a beginning that the day may have, in every zone and within the
/// years of four digits. Of the machine's own zone two calls may be told
/// different beginnings; of any other there is only one.
pub proof fn law_a_day_label_reads_back(
    zone: Zone,
    ts: i64,
    day: int,
    label: Seq<char>,
    begin: int,
    before: Seq<char>,
    after: Seq<char>,
    r: Option<i64>,
)
    requires
        shows(zone, ts, day),
        0 <= civil(day).year <= 9999,
        label == date_text(civil(day)),
        day_begins(zone, ts, begin),
        text::all_space(before),
        text::all_space(after),
        date_read(before + label + after, zone, r),
    ensures
        day_labelled(zone, ts, label),
        iso_date(text::trimmed(before + label + after)).number() == day,
        r is Some,
        starts(zone, day, r->0 as int),
        day_begins(zone, ts, r->0 as int),
        zone !is Local ==> r->0 == begin,
{
    let c = civil(day);
    law_every_number_is_a_date(day);
    law_dates_are_written_as_they_are_read(c);
    assert(is_digit(label[0]) && is_digit(label.last()));
    text::trimmed_of_padded(before, label, after);
}

/// What a machine answers on one setting of its zone: the offset at each instant,
/// and when each hour of a date is.
pub ghost struct Clock {
    pub offsets: spec_fn(i64) -> Option<i32>,
    pub hours: spec_fn(int) -> Seq<Option<int>>,
}

impl Clock {
    /// The date at the instant.
    pub open spec fn day(self, ts: i64) -> int {
        day_with(ts as int, (self.offsets)(ts))
    }

    /// The beginning of the date.
    pub open spec fn begin(self, day: int) -> int {
        first_hour(wall(day, 0), (self.hours)(day))
    }
}

/// While the machine's zone is not set anew, a day label reads back as the very
/// beginning of its day there too.
pub proof fn law_a_day_label_reads_back_on_one_clock(
    clock: Clock,
    ts: i64,
    before: Seq<char>,
    after: Seq<char>,
)
    requires
        small((clock.offsets)(ts)),
        near_hours(clock.day(ts), (clock.hours)(clock.day(ts))),
        0 <= civil(clock.day(ts)).year <= 9999,
        text::all_space(before),
        text::all_space(after),
    ensures
        ({
            let label = date_text(civil(clock.day(ts)));
            let read = iso_date(text::trimmed(before + label + after));
            &&& read.valid()
            &&& clock.begin(read.number()) == clock.begin(clock.day(ts))
            &&& exists|offset: Option<i32>| #[trigger]
                small(offset) && label == date_text(civil(day_with(ts as int, offset)))
            &&& exists|hours: Seq<Option<int>>| #[trigger]
                near_hours(clock.day(ts), hours) && clock.begin(clock.day(ts)) == first_hour(
                    wall(clock.day(ts), 0),
                    hours,
                )
            &&& machine_offset(ts, (clock.offsets)(ts)) ==> day_labelled(Zone::Local, ts, label)
            &&& machine_offset(ts, (clock.offsets)(ts)) ==> forall|hours: Seq<Option<i64>>|
                #[trigger]
                machine_hours(clock.day(ts), hours) && instants(hours) == (clock.hours)(
                    clock.day(ts),
                ) ==> day_begins(Zone::Local, ts, clock.begin(clock.day(ts)))
        }),
{
    let day = clock.day(ts);
    let label = date_text(civil(day));
    law_every_number_is_a_date(day);
    law_dates_are_written_as_they_are_read(civil(day));
    assert(is_digit(label[0]) && is_digit(label.last()));
    text::trimmed_of_padded(before, label, after);
    if machine_offset(ts, (clock.offsets)(ts)) {
        assert(shows(Zone::Local, ts, day));
        assert forall|hours: Seq<Option<i64>>| #[trigger]
            machine_hours(day, hours) && instants(hours) == (clock.hours)(
                day,
            ) implies day_begins(Zone::Local, ts, clock.begin(day)) by {
            assert(starts(Zone::Local, day, clock.begin(day)));
        }
    }
}

/// Day labels sort as their dates do, within the years of four digits: a report
/// in the order of its labels is in the order of time.
pub proof fn law_labels_sort_by_date(a: Civil, b: Civil)
    requires
        a.valid(),
        b.valid(),
        0 <= a.year <= 9999,
        0 <= b.year <= 9999,
    ensures
        text::text_lt(date_text(a), date_text(b)) <==> a.number() < b.number(),
{
    law_dates_are_numbered_in_order(a, b);
    reveal_with_fuel(text::fits, 5);
    text::padded_order(a.year as nat, b.year as nat, 4);
    text::padded_order(a.month as nat, b.month as nat, 2);
    text::padded_order(a.day as nat, b.day as nat, 2);
    text::padded_steps(a.year as nat, 4);
    text::padded_steps(b.year as nat, 4);
    text::padded_steps(a.month as nat, 2);
    text::padded_steps(b.month as nat, 2);
    let ya = year_text(a.year);
    let yb = year_text(b.year);
    let ma = text::dec_padded(a.month as nat, 2);
    let mb = text::dec_padded(b.month as nat, 2);
    let da = text::dec_padded(a.day as nat, 2);
    let db = text::dec_padded(b.day as nat, 2);
    let dash = seq!['-'];
    assert(date_text(a) =~= ya + (dash + (ma + (dash + da))));
    assert(date_text(b) =~= yb + (dash + (mb + (dash + db))));
    text::text_lt_append(ya, yb, dash + (ma + (dash + da)), dash + (mb + (dash + db)));
    text::text_lt_irreflexive(dash);
    text::text_lt_append(dash, dash, ma + (dash + da), mb + (dash + db));
    text::text_lt_append(ma, mb, dash + da, dash + db);
    text::text_lt_append(dash, dash, da, db);
}

/// What the machine may answer is what asking `chrono::Local` may come to, and
/// nothing else.
proof fn law_the_machine_is_asked(
    ts: i64,
    offset: Option<i32>,
    day: i32,
    hour: u32,
    at: Option<i64>,
)
    ensures
        machine_offset(ts, offset) <==> call_ensures(offset_here, (ts,), offset),
        machine_instant(day, hour, at) <==> call_ensures(instant_here, (day, hour), at),
{
}

/// In the machine's own zone the date at an instant is the one on which the
/// instant falls, moved by an offset that the machine answers for that very
/// instant.
pub proof fn law_the_local_date_goes_by_the_machines_offset(ts: i64, day: i32)
    requires
        call_ensures(local_date, (ts, &Zone::Local), day),
        representable(ts as int),
    ensures
        exists|offset: i32| #[trigger]
            machine_offset(ts, Some(offset)) && -86_400 < offset < 86_400 && (in_calendar(
                (ts + offset) / 86_400 + EPOCH,
            ) ==> (day - EPOCH) * 86_400 <= ts + offset < (day - EPOCH + 1) * 86_400),
{
    assert(shows(Zone::Local, ts, day as int));
    let offset = choose|offset: Option<i32>| #[trigger]
        machine_offset(ts, offset) && day as int == day_with(ts as int, offset);
    machine_offset_is_small(ts, offset);
    let o = offset->0;
    assert(machine_offset(ts, Some(o)));
    lemma_fundamental_div_mod(ts + o, 86_400);
}

/// While the machine is not set anew it has one offset at each instant, and every
/// date that is shown is the one under the offset of its own instant.
pub proof fn law_local_dates_on_one_setting(
    setting: spec_fn(i64) -> i32,
    ts: i64,
    day: i32,
    label: String,
    month: String,
)
    requires
        forall|t: i64, o: i32| #[trigger] machine_offset(t, Some(o)) ==> o == setting(t),
        call_ensures(local_date, (ts, &Zone::Local), day),
        call_ensures(day_label, (ts, &Zone::Local), label),
        call_ensures(month_label, (ts, &Zone::Local), month),
        representable(ts as int),
        in_calendar((ts + setting(ts)) / 86_400 + EPOCH),
    ensures
        day == (ts + setting(ts)) / 86_400 + EPOCH,
        label@ == date_text(civil((ts + setting(ts)) / 86_400 + EPOCH)),
        month@ == month_text(civil((ts + setting(ts)) / 86_400 + EPOCH)),
{
    assert forall|d: int| shows(Zone::Local, ts, d) implies d == (ts + setting(ts)) / 86_400
        + EPOCH by {
        let offset = choose|offset: Option<i32>| #[trigger]
            machine_offset(ts, offset) && d == day_with(ts as int, offset);
        machine_offset_is_small(ts, offset);
        assert(machine_offset(ts, Some(offset->0)));
    }
    assert(shows(Zone::Local, ts, day as int));
}

/// While the machine is not set anew it has one instant for each hour of a date,
/// and a date begins at the first of its hours that exists, or at midnight in UTC
/// if none does.
#[verifier::rlimit(50)]
pub proof fn law_local_days_begin_on_one_setting(
    setting: spec_fn(i32, u32) -> Option<i64>,
    date: i32,
    hour: int,
    begin: i64,
)
    requires
        in_calendar(date as int),
        forall|d: i32, h: u32, at: Option<i64>| #[trigger]
            machine_instant(d, h, at) ==> at == setting(d, h),
        call_ensures(start_of_day, (date, &Zone::Local), begin),
        0 <= hour <= 6,
        forall|h: int| 0 <= h < hour ==> #[trigger] setting(date, h as u32) is None,
        hour < 6 ==> setting(date, hour as u32) is Some,
    ensures
        hour < 6 ==> setting(date, hour as u32) == Some(begin),
        hour == 6 ==> begin == (date - EPOCH) * 86_400,
{
    assert(starts(Zone::Local, date as int, begin as int));
    let hours = choose|hours: Seq<Option<i64>>| #[trigger]
        machine_hours(date as int, hours) && begin == first_hour(
            wall(date as int, 0),
            instants(hours),
        );
    assert forall|h: int| 0 <= h < hours.len() implies #[trigger] hours[h] == setting(
        date,
        h as u32,
    ) by {
        assert(machine_instant((date as int) as i32, h as u32, hours[h]));
    }
    if hours.len() < HOURS {
        let last = hours.len() - 1;
        assert(hours[last] == setting(date, last as u32));
        assert(hour < hours.len());
    }
    assert forall|h: int| 0 <= h < hour implies (#[trigger] instants(hours)[h]) is None by {
        assert(hours[h] == setting(date, h as u32));
    }
    if hour < 6 {
        assert(hours[hour] == setting(date, hour as u32));
        assert(instants(hours)[hour] is Some);
    }
    law_a_day_begins_at_its_first_hour(wall(date as int, 0), instants(hours), hour);
}

/// Of some hours the first that exists is the beginning; if none does, it is
/// midnight.
pub proof fn law_a_day_begins_at_its_first_hour(midnight: int, hours: Seq<Option<int>>, h: int)
    requires
        0 <= h <= hours.len(),
        forall|i: int| 0 <= i < h ==> (#[trigger] hours[i]) is None,
        h < hours.len() ==> hours[h] is Some,
    ensures
        h < hours.len() ==> hours[h] == Some(first_hour(midnight, hours)),
        h == hours.len() ==> first_hour(midnight, hours) == midnight,
    decreases hours.len(),
{
    if h > 0 {
        assert(hours[0] is None);
        let rest = hours.drop_first();
        assert forall|i: int| 0 <= i < h - 1 implies (#[trigger] rest[i]) is None by {
            assert(hours[i + 1] is None);
        }
        law_a_day_begins_at_its_first_hour(midnight, rest, h - 1);
    }
}

/// In every other zone, too, the date at an instant is the one on which the
/// instant falls, moved by the offset of the zone: none in UTC, the fixed one, or
/// the one that a named zone has at that very instant.
pub proof fn law_the_date_goes_by_the_zones_offset(zone: &Zone, ts: i64, day: i32, offset: int)
    requires
        zone.valid(),
        call_ensures(local_date, (ts, zone), day),
        representable(ts as int),
        match *zone {
            Zone::Local => false,
            Zone::Utc => offset == 0,
            Zone::Fixed(s) => offset == s,
            Zone::Named(name) => offset == (if named_offset(name@, ts) is Some {
                named_offset(name@, ts)->0 as int
            } else {
                0
            }),
        },
        in_calendar((ts + offset) / 86_400 + EPOCH),
    ensures
        (day - EPOCH) * 86_400 <= ts + offset < (day - EPOCH + 1) * 86_400,
{
    lemma_fundamental_div_mod(ts + offset, 86_400);
    assert(day == day_with(ts as int, offset_of(*zone, ts)));
}

/// Beyond the calendar there is one date only, 1 January 1970, and where only the
/// local date is beyond it, it is the date in UTC.
pub proof fn law_dates_beyond_the_calendar(ts: i64, offset: Option<i32>, day: i32)
    requires
        call_ensures(date_with_offset, (ts, offset), day),
    ensures
        !representable(ts as int) ==> civil(day as int) == (Civil { year: 1970, month: 1, day: 1 }),
        representable(ts as int) && (offset matches Some(o) ==> !in_calendar(
            (ts + o) / 86_400 + EPOCH,
        )) ==> day == ts as int / 86_400 + EPOCH,
        FIRST <= day <= LAST,
{
    let epoch = Civil { year: 1970, month: 1, day: 1 };
    reveal_with_fuel(days_before_month, 2);
    assert(epoch.valid() && epoch.number() == EPOCH);
    law_every_number_is_a_date(EPOCH as int);
}

/// Where clocks never change, a day begins at midnight there, unless that instant
/// is beyond the calendar.
pub proof fn law_a_steady_day_begins_at_midnight(zone: Zone, day: int, begin: int)
    requires
        steady(zone) is Some,
        starts(zone, day, begin),
        zone is Utc || representable((day - EPOCH) * 86_400 - steady(zone)->0),
    ensures
        begin + steady(zone)->0 == (day - EPOCH) * 86_400,
{
    let hours = Seq::new(HOURS as nat, |h: int| instant_of(zone, day, h));
    assert(hours[0] == instant_of(zone, day, 0));
    assert(wall(day, 0) == (day - EPOCH) * 86_400);
    law_a_day_begins_at_its_first_hour(wall(day, 0), hours, 0);
}

/// In a named zone a day begins when the zone first shows one of its hours: the
/// first hour that exists, or midnight in UTC if none does.
pub proof fn law_a_named_day_begins_at_its_first_hour(
    name: String,
    date: i32,
    hour: int,
    begin: int,
)
    requires
        starts(Zone::Named(name), date as int, begin),
        0 <= hour <= 6,
        forall|h: int| 0 <= h < hour ==> #[trigger] named_instant(name@, date, h as u32) is None,
        hour < 6 ==> named_instant(name@, date, hour as u32) is Some,
    ensures
        hour < 6 ==> named_instant(name@, date, hour as u32)->0 == begin,
        hour == 6 ==> begin == (date - EPOCH) * 86_400,
{
    let zone = Zone::Named(name);
    let hours = Seq::new(HOURS as nat, |h: int| instant_of(zone, date as int, h));
    assert forall|i: int| 0 <= i < hour implies (#[trigger] hours[i]) is None by {
        assert(named_instant(name@, date, i as u32) is None);
    }
    if hour < 6 {
        assert(hours[hour] == Some(named_instant(name@, date, hour as u32)->0 as int));
    }
    law_a_day_begins_at_its_first_hour(wall(date as int, 0), hours, hour);
}

/// A day, a week and a month begin on a day of their own: the day that the zone
/// shows at the instant, the Monday at or before it, and the first of its month.
#[verifier::rlimit(50)]
pub proof fn law_which_day_begins_a_period(
    zone: &Zone,
    ts: i64,
    day: i64,
    week: i64,
    month: i64,
)
    requires
        zone.valid(),
        call_ensures(day_start, (ts, zone), day),
        call_ensures(week_start, (ts, zone), week),
        call_ensures(month_start, (ts, zone), month),
    ensures
        exists|d: int| #[trigger] shows(*zone, ts, d) && starts(*zone, d, day as int),
        exists|d: int, m: int|
            #![trigger shows(*zone, ts, d), starts(*zone, m, week as int)]
            shows(*zone, ts, d) && starts(*zone, m, week as int) && (d - (d - 1) % 7 >= FIRST
                ==> m <= d < m + 7 && m % 7 == 1) && (d - (d - 1) % 7 < FIRST ==> m == d),
        exists|d: int, m: int|
            #![trigger shows(*zone, ts, d), starts(*zone, m, month as int)]
            shows(*zone, ts, d) && starts(*zone, m, month as int) && civil(m) == (Civil {
                day: 1,
                ..civil(d)
            }),
{
    let d = choose|d: int| #[trigger]
        shows(*zone, ts, d) && starts(*zone, monday(d), week as int);
    assert(starts(*zone, monday(d), week as int));
    if d - (d - 1) % 7 >= FIRST {
        law_weeks_begin_on_monday(d);
        assert(monday(d) % 7 == 1);
    }
    let e = choose|e: int| #[trigger]
        shows(*zone, ts, e) && starts(*zone, first_of_month(e), month as int);
    assert(starts(*zone, first_of_month(e), month as int));
    shown_days_are_in_the_calendar(*zone, ts, e);
    law_months_begin_on_their_first_day(e);
}

proof fn shown_days_are_in_the_calendar(zone: Zone, ts: i64, day: int)
    requires
        shows(zone, ts, day),
    ensures
        in_calendar(day),
{
}

/// A label says the date of the day that the zone shows at the instant; the
/// label of the month is the beginning of the day's.
pub proof fn law_what_labels_say(zone: &Zone, ts: i64, day: String, month: String)
    requires
        zone.valid(),
        call_ensures(day_label, (ts, zone), day),
        call_ensures(month_label, (ts, zone), month),
    ensures
        exists|d: int| #[trigger] shows(*zone, ts, d) && says_date(day@, civil(d)),
        exists|d: int| #[trigger] shows(*zone, ts, d) && says_month(month@, civil(d)),
{
    let d = choose|d: int| #[trigger] shows(*zone, ts, d) && day@ == date_text(civil(d));
    law_every_number_is_a_date(d);
    dates_are_said(civil(d));
    let e = choose|e: int| #[trigger] shows(*zone, ts, e) && month@ == month_text(civil(e));
    law_every_number_is_a_date(e);
    dates_are_said(civil(e));
}

/// A label of a week says a date that the zone shows at a beginning of the week.
pub proof fn law_what_a_week_label_says(zone: &Zone, ts: i64, week: String)
    requires
        zone.valid(),
        call_ensures(week_label, (ts, zone), week),
    ensures
        exists|begin: i64, d: int|
            #![trigger week_begins(*zone, ts, begin as int), shows(*zone, begin, d)]
            week_begins(*zone, ts, begin as int) && shows(*zone, begin, d) && says_date(
                week@,
                civil(d),
            ),
{
    let begin = choose|start: i64| #[trigger]
        week_begins(*zone, ts, start as int) && day_labelled(*zone, start, week@);
    let d = choose|d: int| #[trigger] shows(*zone, begin, d) && week@ == date_text(civil(d));
    law_every_number_is_a_date(d);
    dates_are_said(civil(d));
}

/// The text is a year of at least four digits, with a sign if it is below zero or
/// has more, then a hyphen and two digits for the month.
pub open spec fn says_month(t: Seq<char>, c: Civil) -> bool {
    let n = t.len() as int;
    let signed = c.year < 0 || c.year > 9999;
    let digits: int = if signed {
        1
    } else {
        0
    };
    &&& n >= 7
    &&& t[n - 3] == '-'
    &&& text::read_dec(t.skip(n - 2)) == c.month
    &&& signed ==> t[0] == (if c.year < 0 {
        '-'
    } else {
        '+'
    })
    &&& text::read_dec(t.subrange(digits, n - 3)) == (if c.year < 0 {
        -c.year
    } else {
        c.year
    })
}

/// The text says the month, then a hyphen and two digits for the day.
pub open spec fn says_date(t: Seq<char>, c: Civil) -> bool {
    let n = t.len() as int;
    &&& n >= 10
    &&& says_month(t.take(n - 3), c)
    &&& t[n - 3] == '-'
    &&& text::read_dec(t.skip(n - 2)) == c.day
}

#[verifier::rlimit(50)]
proof fn dates_are_said(c: Civil)
    requires
        c.valid(),
    ensures
        says_month(month_text(c), c),
        says_date(date_text(c), c),
        date_text(c).take(date_text(c).len() - 3) == month_text(c),
{
    reveal_with_fuel(text::fits, 3);
    let y = if c.year < 0 {
        (-c.year) as nat
    } else {
        c.year as nat
    };
    text::law_a_padded_number_reads_back(y, 4);
    text::law_a_padded_number_reads_back(c.month as nat, 2);
    text::law_a_padded_number_reads_back(c.day as nat, 2);
    text::padded_steps(c.month as nat, 2);
    text::padded_steps(c.day as nat, 2);
    let m = month_text(c);
    let t = date_text(c);
    let n = m.len() as int;
    let mm = text::dec_padded(c.month as nat, 2);
    let dd = text::dec_padded(c.day as nat, 2);
    assert(m.skip(n - 2) =~= mm);
    let signed = c.year < 0 || c.year > 9999;
    let digits: int = if signed {
        1
    } else {
        0
    };
    assert(m.subrange(digits, n - 3) =~= text::dec_padded(y, 4));
    assert(t.take(t.len() - 3) =~= m);
    assert(t.skip(t.len() - 2) =~= dd);
}

/// An instant is written as its date in UTC, the time of day in three pairs of
/// digits that read back, and no offset. Beyond the calendar it is the epoch.
#[verifier::rlimit(50)]
pub proof fn law_an_instant_reads_back(ts: i64, shown: String)
    requires
        call_ensures(timestamp_text, (ts,), shown),
    ensures
        ({
            let at: int = if representable(ts as int) {
                ts as int
            } else {
                0
            };
            let t = shown@;
            let n = t.len() as int;
            let hour = text::read_dec(t.subrange(n - 14, n - 12));
            let minute = text::read_dec(t.subrange(n - 11, n - 9));
            let second = text::read_dec(t.subrange(n - 8, n - 6));
            &&& n >= 25
            &&& says_date(t.take(n - 15), civil(at / 86_400 + EPOCH))
            &&& t[n - 15] == 'T' && t[n - 12] == ':' && t[n - 9] == ':'
            &&& t.skip(n - 6) == "+00:00"@
            &&& 0 <= hour < 24 && 0 <= minute < 60 && 0 <= second < 60
            &&& 3600 * hour + 60 * minute + second == at % 86_400
        }),
{
    let at: int = if representable(ts as int) {
        ts as int
    } else {
        0
    };
    let t = shown@;
    let n = t.len() as int;
    let second = at % 86_400;
    let h = (second / 3600) as nat;
    let m = (second / 60 % 60) as nat;
    let s = (second % 60) as nat;
    reveal_strlit("+00:00");
    reveal_with_fuel(text::fits, 3);
    text::padded_steps(h, 2);
    text::padded_steps(m, 2);
    text::padded_steps(s, 2);
    text::law_a_padded_number_reads_back(h, 2);
    text::law_a_padded_number_reads_back(m, 2);
    text::law_a_padded_number_reads_back(s, 2);
    let date = date_text(civil(day_at(at, 0)));
    law_every_number_is_a_date(day_at(at, 0));
    dates_are_said(civil(day_at(at, 0)));
    assert(t == instant_text(ts as int));
    assert(t.take(n - 15) =~= date);
    assert(t.subrange(n - 14, n - 12) =~= text::dec_padded(h, 2));
    assert(t.subrange(n - 11, n - 9) =~= text::dec_padded(m, 2));
    assert(t.subrange(n - 8, n - 6) =~= text::dec_padded(s, 2));
    assert(t.skip(n - 6) =~= "+00:00"@);
}

/// Every fourth year is a leap year, of the full centuries every fourth, and no
/// other.
pub proof fn law_which_years_are_leap_years(k: int)
    ensures
        !leap(4 * k + 1) && !leap(4 * k + 2) && !leap(4 * k + 3),
        leap(100 * k) <==> k % 4 == 0,
        k % 25 != 0 ==> leap(4 * k),
{
}

/// The months have the days that they have, and four centuries always as many.
#[verifier::rlimit(50)]
pub proof fn law_how_long_months_are(year: int, month: int)
    requires
        1 <= month <= 12,
    ensures
        month_days(year, month) == seq![31int, 28, 31, 30, 31, 30, 31, 31, 30, 31, 30, 31][month - 1]
            + (if month == 2 && leap(year) {
            1int
        } else {
            0
        }),
        (Civil { year: year + 400, month: 1, day: 1 }).number() - (Civil {
            year,
            month: 1,
            day: 1,
        }).number() == 146_097,
        (Civil { year: 1970, month: 1, day: 1 }).number() == 719_163,
        (Civil { year: -262_143, month: 1, day: 1 }).number() == FIRST,
        (Civil { year: 262_143, month: 1, day: 1 }).number() == LAST + 1,
{
    lemma_hoist_over_denominator(year - 1, 100, 4);
    lemma_hoist_over_denominator(year - 1, 4, 100);
    lemma_hoist_over_denominator(year - 1, 1, 400);
    reveal_with_fuel(days_before_month, 2);
}

/// The day after a date is the next day of its month, or the first of the next
/// month, or the first of January.
#[verifier::rlimit(50)]
pub proof fn law_which_date_follows(day: int)
    ensures
        ({
            let c = civil(day);
            let next = civil(day + 1);
            &&& c.day < month_days(c.year, c.month) ==> next == (Civil { day: c.day + 1, ..c })
            &&& c.day == month_days(c.year, c.month) && c.month < 12 ==> next == (Civil {
                month: c.month + 1,
                day: 1,
                ..c
            })
            &&& c.day == month_days(c.year, c.month) && c.month == 12 ==> next == (Civil {
                year: c.year + 1,
                month: 1,
                day: 1,
            })
        }),
{
    law_every_number_is_a_date(day);
    law_every_number_is_a_date(day + 1);
    let c = civil(day);
    if c.day < month_days(c.year, c.month) {
        let n = Civil { day: c.day + 1, ..c };
        assert(n.valid() && n.number() == day + 1);
    } else if c.month < 12 {
        let n = Civil { month: c.month + 1, day: 1, ..c };
        assert(n.valid() && n.number() == day + 1);
    } else {
        let n = Civil { year: c.year + 1, month: 1, day: 1 };
        next_year(c.year);
        reveal_with_fuel(days_before_month, 13);
        assert(n.valid() && n.number() == day + 1);
    }
}

/// A text is read as when the date begins that it denotes without the white space
/// around it, and only if it denotes one.
pub proof fn law_a_date_is_read_without_white_space(text: &str, zone: &Zone, r: Option<i64>)
    requires
        zone.valid(),
        call_ensures(parse_date, (text, zone), r),
    ensures
        r is Some <==> parsed_date(text::trimmed(text@)) is Some,
        r matches Some(ts) ==> starts(
            *zone,
            parsed_date(text::trimmed(text@))->0 as int,
            ts as int,
        ),
{
}

/// A text of a date, whatever white space is around it, is read as when that date
/// begins; one whose digits say no date is not read.
#[verifier::rlimit(50)]
pub proof fn law_what_is_read_of_a_date(text: &str, zone: &Zone, r: Option<i64>)
    requires
        zone.valid(),
        call_ensures(parse_date, (text, zone), r),
        iso_shape(text::trimmed(text@)),
    ensures
        ({
            let t = text::trimmed(text@);
            let c = Civil {
                year: text::read_dec(t.take(4)),
                month: text::read_dec(t.subrange(5, 7)),
                day: text::read_dec(t.skip(8)),
            };
            &&& r is Some <==> c.valid()
            &&& r matches Some(ts) ==> starts(*zone, c.number(), ts as int)
        }),
{
    let t = text::trimmed(text@);
    reveal_with_fuel(text::read_dec, 5);
    let y = t.take(4);
    assert(y.drop_last() =~= t.take(3));
    assert(t.take(3).drop_last() =~= t.take(2));
    assert(t.take(2).drop_last() =~= t.take(1));
    assert(t.take(1).drop_last() =~= Seq::<char>::empty());
    let m = t.subrange(5, 7);
    assert(m.drop_last() =~= t.subrange(5, 6));
    assert(t.subrange(5, 6).drop_last() =~= Seq::<char>::empty());
    let d = t.skip(8);
    assert(d.drop_last() =~= t.subrange(8, 9));
    assert(t.subrange(8, 9).drop_last() =~= Seq::<char>::empty());
}

/// A date is written as its digits are read, and its month as the date begins.
pub proof fn law_what_is_written_of_a_date(day: i32, date: String, month: String)
    requires
        in_calendar(day as int),
        call_ensures(date_as_text, (day,), date),
        call_ensures(month_of_date, (day,), month),
    ensures
        says_date(date@, civil(day as int)),
        says_month(month@, civil(day as int)),
        month@ == date@.take(date@.len() - 3),
{
    law_every_number_is_a_date(day as int);
    dates_are_said(civil(day as int));
}

/// Given when each of its hours is, a date begins at the first that exists, or at
/// midnight in UTC.
pub proof fn law_the_first_hour_that_exists(
    day: i32,
    hours: &Vec<Option<i64>>,
    h: int,
    r: i64,
)
    requires
        in_calendar(day as int),
        call_ensures(first_existing_hour, (day, hours), r),
        0 <= h <= hours@.len(),
        forall|i: int| 0 <= i < h ==> (#[trigger] hours@[i]) is None,
        h < hours@.len() ==> hours@[h] is Some,
    ensures
        h < hours@.len() ==> hours@[h] == Some(r),
        h == hours@.len() ==> r == (day - EPOCH) * 86_400,
{
    let all = instants(hours@);
    assert forall|i: int| 0 <= i < h implies (#[trigger] all[i]) is None by {
        assert(hours@[i] is None);
    }
    if h < hours@.len() {
        assert(all[h] == Some(hours@[h]->0 as int));
    }
    law_a_day_begins_at_its_first_hour(wall(day as int, 0), all, h);
}

/// The instants of the calendar are those from the beginning of its first day to
/// the end of its last, in UTC; an hour of a date, read as UTC, is so many seconds
/// from the epoch.
pub proof fn law_which_instants_are_in_the_calendar(ts: int, day: int, hour: int)
    ensures
        representable(ts) <==> (FIRST - 719_163) * 86_400 <= ts < (LAST - 719_163 + 1) * 86_400,
        in_calendar(day) <==> FIRST <= day <= LAST,
        wall(day, hour) == (day - 719_163) * 86_400 + hour * 3600,
        0 <= hour < 24 ==> wall(day, hour) / 86_400 + 719_163 == day,
{
    lemma_fundamental_div_mod(ts, 86_400);
    if 0 <= hour < 24 {
        lemma_fundamental_div_mod_converse(wall(day, hour), 86_400, day - 719_163, hour * 3600);
    }
}

/// The machine's own zone is off UTC by less than a day, in the dates that it
/// shows and in the hours with which it begins them.
pub proof fn law_the_machine_is_off_by_less_than_a_day(ts: i64, shown: int, day: int, begin: int)
    requires
        shows(Zone::Local, ts, shown),
        in_calendar(day),
        starts(Zone::Local, day, begin),
    ensures
        exists|offset: Option<i32>| #[trigger]
            small(offset) && shown == day_with(ts as int, offset),
        exists|hours: Seq<Option<int>>| #[trigger]
            near_hours(day, hours) && begin == first_hour(wall(day, 0), hours),
{
    let offset = choose|offset: Option<i32>| #[trigger]
        machine_offset(ts, offset) && shown == day_with(ts as int, offset);
    machine_offset_is_small(ts, offset);
    let asked = choose|asked: Seq<Option<i64>>| #[trigger]
        machine_hours(day, asked) && begin == first_hour(wall(day, 0), instants(asked));
    let hours = instants(asked);
    assert forall|h: int| 0 <= h < hours.len() && #[trigger] hours[h] is Some implies -DAY
        < hours[h]->0 - wall(day, h) < DAY by {
        assert(machine_instant(day as i32, h as u32, asked[h]));
        machine_instant_is_near(day as i32, h as u32, asked[h]);
    }
    assert(near_hours(day, hours));
}

} // verus!
