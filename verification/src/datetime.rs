//! Just enough calendar arithmetic to date a typing test.
//!
//! Results are timestamped in *local* time: "days practised" and "streak" are
//! about the typist's day. Reading the local clock is the caller's business;
//! the day arithmetic here is Howard Hinnant's civil-date algorithm, which
//! needs no timezone database.
use vstd::prelude::*;

use crate::number::{all_digits, digits_value, is_digit, lemma_decimal_reads_back, parse_i32, parse_u32, parsed};
use crate::text::{decimal, decimal_u64, fields, free_of, joined, push_char, push_str, split_fields};

verus! {

/// A calendar date, with no time and no zone attached.
#[derive(Clone, Copy, Debug, PartialEq, Eq, PartialOrd, Ord, Structural)]
pub struct Date {
    pub year: i32,
    pub month: u32,
    pub day: u32,
}

/// Days from 1970-01-01 to the given proleptic Gregorian date. Months are
/// counted from March so that the leap day falls at the end of a year, and
/// years in eras of 400, which is when the calendar repeats.
pub open spec fn days_from_civil(year: int, month: int, day: int) -> int {
    let y = if month <= 2 { year - 1 } else { year };
    let era = y / 400;
    let year_of_era = y - era * 400;
    let shifted_month = (month + 9) % 12;
    let day_of_year = (153 * shifted_month + 2) / 5 + day - 1;
    let day_of_era = year_of_era * 365 + year_of_era / 4 - year_of_era / 100 + day_of_year;
    era * 146097 + day_of_era - 719468
}

/// The year of the era, month and day of the `day_of_era`-th day of a
/// 400-year era that starts on a 1 March.
pub open spec fn civil_in_era(day_of_era: int) -> (int, int, int) {
    let year_of_era = (day_of_era - day_of_era / 1460 + day_of_era / 36524 - day_of_era / 146096) / 365;
    let day_of_year = day_of_era - (365 * year_of_era + year_of_era / 4 - year_of_era / 100);
    let shifted_month = (5 * day_of_year + 2) / 153;
    let day = day_of_year - (153 * shifted_month + 2) / 5 + 1;
    let month = if shifted_month < 10 { shifted_month + 3 } else { shifted_month - 9 };
    (year_of_era, month, day)
}

/// The year, month and day `days` after 1970-01-01: the inverse of
/// [`days_from_civil`] on real dates.
pub open spec fn civil_from_days(days: int) -> (int, int, int) {
    let shifted = days + 719468;
    let era = shifted / 146097;
    let (year_of_era, month, day) = civil_in_era(shifted - era * 146097);
    let year = year_of_era + era * 400;
    (if month <= 2 { year + 1 } else { year }, month, day)
}

impl Date {
    pub open spec fn days_spec(self) -> int {
        days_from_civil(self.year as int, self.month as int, self.day as int)
    }

    /// Days since 1970-01-01.
    pub fn to_days(self) -> (d: i64)
        ensures
            d == self.days_spec(),
            is_real_date(self) ==> date_from_days(d as int) == self,
    {
        proof {
            if is_real_date(self) {
                lemma_dates_round_trip(self);
            }
        }
        let year: i64 = if self.month <= 2 {
            self.year as i64 - 1
        } else {
            self.year as i64
        };
        // Floor division by 400 on a value moved into the non-negative range.
        let era: i64 = (year + 2_160_000_000) / 400 - 5_400_000;
        proof {
            let k = year + 2_160_000_000;
            vstd::arithmetic::div_mod::lemma_fundamental_div_mod(k as int, 400);
            vstd::arithmetic::div_mod::lemma_fundamental_div_mod_converse(year as int, 400, era as int, k as int % 400);
        }
        let year_of_era = year - era * 400;
        assert(0 <= year_of_era < 400);
        let shifted_month = ((self.month as i64) + 9) % 12;
        let day_of_year = (153 * shifted_month + 2) / 5 + self.day as i64 - 1;
        let day_of_era = year_of_era * 365 + year_of_era / 4 - year_of_era / 100 + day_of_year;
        era * 146_097 + day_of_era - 719_468
    }

    /// Whole days from `other` to `self`, positive when `self` is later.
    pub fn diff(self, other: Date) -> (d: i64)
        ensures
            d == self.days_spec() - other.days_spec(),
    {
        self.to_days() - other.to_days()
    }
}

/// The date `days` after 1970-01-01. The year wraps as `as i32` does when it
/// does not fit.
pub open spec fn date_from_days(days: int) -> Date {
    let (year, month, day) = civil_from_days(days);
    Date { year: year as i32, month: month as u32, day: day as u32 }
}

/// Within an era, the month and day that [`civil_in_era`] finds lead back to
/// the same day of the era.
proof fn lemma_era_day_round_trip(day_of_era: int)
    requires
        0 <= day_of_era < 146097,
    ensures
        ({
            let (year_of_era, month, day) = civil_in_era(day_of_era);
            let shifted_month = (month + 9) % 12;
            let day_of_year = (153 * shifted_month + 2) / 5 + day - 1;
            &&& 0 <= year_of_era < 400
            &&& 0 <= day_of_era - year_start(year_of_era) < 366
            &&& 1 <= month <= 12
            &&& year_of_era * 365 + year_of_era / 4 - year_of_era / 100 + day_of_year == day_of_era
        }),
{
    let year_of_era = (day_of_era - day_of_era / 1460 + day_of_era / 36524 - day_of_era / 146096) / 365;
    let day_of_year = day_of_era - (365 * year_of_era + year_of_era / 4 - year_of_era / 100);
    assert(0 <= day_of_year < 366 && 0 <= year_of_era < 400) by (nonlinear_arith)
        requires
            0 <= day_of_era < 146097,
            year_of_era == (day_of_era - day_of_era / 1460 + day_of_era / 36524 - day_of_era / 146096) / 365,
            day_of_year == day_of_era - (365 * year_of_era + year_of_era / 4 - year_of_era / 100),
    ;
    let m = (5 * day_of_year + 2) / 153;
    assert(0 <= m < 12) by (nonlinear_arith)
        requires
            0 <= day_of_year < 366,
            m == (5 * day_of_year + 2) / 153,
    ;
    let month = if m < 10 { m + 3 } else { m - 9 };
    assert((month + 9) % 12 == m);
}

/// Counting the days back from a date found for a day count gives the same
/// count: [`Date::to_days`] undoes [`from_days`] wherever the year fits.
pub proof fn lemma_days_round_trip(days: int)
    requires
        i32::MIN <= civil_from_days(days).0 <= i32::MAX,
    ensures
        date_from_days(days).days_spec() == days,
{
    let shifted = days + 719468;
    let era = shifted / 146097;
    let day_of_era = shifted - era * 146097;
    assert(0 <= day_of_era < 146097);
    lemma_era_day_round_trip(day_of_era);
    let (year_of_era, month, day) = civil_in_era(day_of_era);
    let year = year_of_era + era * 400;
    let y = if month <= 2 { year + 1 - 1 } else { year };
    assert(y == year_of_era + era * 400);
    assert(y / 400 == era) by (nonlinear_arith)
        requires
            y == year_of_era + era * 400,
            0 <= year_of_era < 400,
    ;
    assert(y - (y / 400) * 400 == year_of_era);
    let d = date_from_days(days);
    assert(d.month as int == month);
    assert(d.day as int == day);
}

/// Whether `year` has a 29 February in the proleptic Gregorian calendar.
pub open spec fn is_leap_year(year: int) -> bool {
    year % 4 == 0 && (year % 100 != 0 || year % 400 == 0)
}

/// How many days `month` of `year` has.
pub open spec fn days_in_month(year: int, month: int) -> int {
    if month == 2 {
        if is_leap_year(year) { 29 } else { 28 }
    } else if month == 4 || month == 6 || month == 9 || month == 11 {
        30
    } else {
        31
    }
}

/// Whether the date is a day of the calendar: a month of the year, and a day
/// of that month.
pub open spec fn is_real_date(d: Date) -> bool {
    &&& 1 <= d.month <= 12
    &&& 1 <= d.day <= days_in_month(d.year as int, d.month as int)
}

/// The day of its era on which year `year_of_era` of the era starts.
spec fn year_start(year_of_era: int) -> int {
    365 * year_of_era + year_of_era / 4 - year_of_era / 100
}

/// The days of year `year_of_era` of an era, from 1 March to the end of the
/// next February.
spec fn era_year_len(year_of_era: int) -> int {
    if is_leap_year(year_of_era + 1) { 366 } else { 365 }
}

/// The day of its year on which the `shifted_month`-th month from March
/// starts.
spec fn month_start(shifted_month: int) -> int {
    (153 * shifted_month + 2) / 5
}

/// Leap years repeat every 400 years.
proof fn lemma_leap_repeats(era: int, year: int)
    ensures
        is_leap_year(era * 400 + year) == is_leap_year(year),
{
    vstd::arithmetic::div_mod::lemma_fundamental_div_mod(year, 4);
    vstd::arithmetic::div_mod::lemma_fundamental_div_mod(year, 100);
    vstd::arithmetic::div_mod::lemma_fundamental_div_mod(year, 400);
    vstd::arithmetic::div_mod::lemma_fundamental_div_mod_converse(era * 400 + year, 4, era * 100 + year / 4, year % 4);
    vstd::arithmetic::div_mod::lemma_fundamental_div_mod_converse(era * 400 + year, 100, era * 4 + year / 100, year % 100);
    vstd::arithmetic::div_mod::lemma_fundamental_div_mod_converse(era * 400 + year, 400, era + year / 400, year % 400);
}

/// A day of a year of an era is found again in that year.
proof fn lemma_year_of_era(year_of_era: int, day_of_year: int)
    requires
        0 <= year_of_era < 400,
        0 <= day_of_year < era_year_len(year_of_era),
    ensures
        civil_in_era(year_start(year_of_era) + day_of_year).0 == year_of_era,
        0 <= year_start(year_of_era) + day_of_year < 146097,
{
    let yoe = year_of_era;
    let doy = day_of_year;
    let c = yoe / 100;
    let rest = yoe % 100;
    let q = rest / 4;
    let r = rest % 4;
    assert(yoe == 100 * c + 4 * q + r && 0 <= c < 4 && 0 <= q < 25 && 0 <= r < 4);
    vstd::arithmetic::div_mod::lemma_fundamental_div_mod_converse(yoe, 4, 25 * c + q, r);
    let doe = year_start(yoe) + doy;
    assert(doe == 36524 * c + 1461 * q + 365 * r + doy);
    if r < 3 {
        vstd::arithmetic::div_mod::lemma_fundamental_div_mod_converse(yoe + 1, 4, 25 * c + q, r + 1);
        assert(doy < 365);
    }
    if c < 3 && q == 24 && r == 3 {
        vstd::arithmetic::div_mod::lemma_fundamental_div_mod_converse(yoe + 1, 100, c + 1, 0);
        vstd::arithmetic::div_mod::lemma_fundamental_div_mod_converse(yoe + 1, 400, 0, 100 * (c + 1));
        assert(doy < 365);
    }
    let low = 24 * c + q + 365 * r + doy;
    let e: int = if low >= 1460 { 1 } else { 0 };
    vstd::arithmetic::div_mod::lemma_fundamental_div_mod_converse(doe, 1460, 25 * c + q + e, low - 1460 * e);
    let top: int = if doe == 146096 { 1 } else { 0 };
    vstd::arithmetic::div_mod::lemma_fundamental_div_mod_converse(doe, 36524, c + top, doe - 36524 * (c + top));
    vstd::arithmetic::div_mod::lemma_fundamental_div_mod_converse(doe, 146096, top, doe - 146096 * top);
    let g = doe - doe / 1460 + doe / 36524 - doe / 146096;
    assert(g == 365 * yoe + doy - e);
    vstd::arithmetic::div_mod::lemma_fundamental_div_mod_converse(g, 365, yoe, doy - e);
}

/// The length of the `shifted_month`-th month from March; February's is
/// given by `leap`.
spec fn shifted_month_len(shifted_month: int, leap: bool) -> int {
    if shifted_month == 11 {
        if leap { 29 } else { 28 }
    } else {
        month_start(shifted_month + 1) - month_start(shifted_month)
    }
}

/// The month of the calendar that is the `shifted_month`-th from March.
spec fn civil_month(shifted_month: int) -> int {
    if shifted_month < 10 { shifted_month + 3 } else { shifted_month - 9 }
}

/// The months counted from March have the calendar's lengths.
proof fn lemma_month_lengths(shifted_month: int, year: int)
    requires
        0 <= shifted_month < 12,
    ensures
        shifted_month_len(shifted_month, is_leap_year(year)) == days_in_month(year, civil_month(shifted_month)),
{
}

/// A day of a month counted from March is found in that month.
proof fn lemma_month_of_day(shifted_month: int, day: int)
    requires
        0 <= shifted_month < 12,
        0 <= day < shifted_month_len(shifted_month, true),
    ensures
        (5 * (month_start(shifted_month) + day) + 2) / 153 == shifted_month,
{
    let x = 5 * (month_start(shifted_month) + day) + 2;
    vstd::arithmetic::div_mod::lemma_fundamental_div_mod_converse(x, 153, shifted_month, x - 153 * shifted_month);
}

/// Every day of a year from March falls in one of its months.
proof fn lemma_day_in_month(day_of_year: int)
    requires
        0 <= day_of_year < 366,
    ensures
        ({
            let m = (5 * day_of_year + 2) / 153;
            &&& 0 <= m < 12
            &&& month_start(m) <= day_of_year
            &&& day_of_year - month_start(m) < shifted_month_len(m, true)
            &&& m == 11 && day_of_year < 365 ==> day_of_year - month_start(m) < shifted_month_len(m, false)
        }),
{
    let m = (5 * day_of_year + 2) / 153;
    assert(0 <= m < 12);
}

/// Consecutive years of an era follow one another.
proof fn lemma_next_year_start(year_of_era: int)
    requires
        0 <= year_of_era < 399,
    ensures
        year_start(year_of_era + 1) == year_start(year_of_era) + era_year_len(year_of_era),
{
    let y = year_of_era + 1;
    vstd::arithmetic::div_mod::lemma_fundamental_div_mod_converse(y, 400, 0, y);
}

/// Within a hundred million days of 1970-01-01 either way, the year found
/// fits an `i32`, the date found is a day of the calendar, and counting its
/// days gives the count back.
pub proof fn lemma_nearby_days_round_trip(days: int)
    requires
        -100_000_000 <= days <= 100_000_000,
    ensures
        i32::MIN <= civil_from_days(days).0 <= i32::MAX,
        is_real_date(date_from_days(days)),
        date_from_days(days).days_spec() == days,
{
    let shifted = days + 719468;
    let era = shifted / 146097;
    let doe = shifted - era * 146097;
    assert(-700 <= era <= 700);
    lemma_era_day_round_trip(doe);
    lemma_found_dates_are_real(days);
    lemma_days_round_trip(days);
}

/// The date found for any day count is a day of the calendar: its month is
/// one of the twelve and its day one of that month's.
pub proof fn lemma_found_dates_are_real(days: int)
    requires
        i32::MIN <= civil_from_days(days).0 <= i32::MAX,
    ensures
        is_real_date(date_from_days(days)),
{
    let shifted = days + 719468;
    let era = shifted / 146097;
    let doe = shifted - era * 146097;
    lemma_era_day_round_trip(doe);
    let yoe = civil_in_era(doe).0;
    let doy = doe - year_start(yoe);
    if doy == 365 && !is_leap_year(yoe + 1) {
        assert(is_leap_year(400));
        lemma_next_year_start(yoe);
        lemma_year_of_era(yoe + 1, 0);
        assert(false);
    }
    lemma_day_in_month(doy);
    let m = (5 * doy + 2) / 153;
    lemma_month_lengths(m, yoe + era * 400 + 1);
    lemma_month_lengths(m, yoe + era * 400);
    lemma_leap_repeats(era, yoe + 1);
    assert(era * 400 + (yoe + 1) == yoe + era * 400 + 1);
}

/// Counting the days to a date of the calendar and finding the date for that
/// count gives the date back: [`from_days`] undoes [`Date::to_days`] on every
/// real date.
pub proof fn lemma_dates_round_trip(d: Date)
    requires
        is_real_date(d),
    ensures
        date_from_days(d.days_spec()) == d,
{
    let (year, month, day) = (d.year as int, d.month as int, d.day as int);
    let y = if month <= 2 { year - 1 } else { year };
    let era = y / 400;
    let yoe = y - era * 400;
    let m = (month + 9) % 12;
    let doy = month_start(m) + day - 1;
    assert(civil_month(m) == month);
    lemma_month_lengths(m, year);
    lemma_leap_repeats(era, yoe + 1);
    assert(era * 400 + (yoe + 1) == y + 1);
    assert(doy < era_year_len(yoe));
    lemma_year_of_era(yoe, doy);
    lemma_month_of_day(m, day - 1);
    let doe = year_start(yoe) + doy;
    assert(d.days_spec() == era * 146097 + doe - 719468);
    let shifted = d.days_spec() + 719468;
    vstd::arithmetic::div_mod::lemma_fundamental_div_mod_converse(shifted, 146097, era, doe);
    assert(civil_in_era(doe) == (yoe, month, day));
}

fn civil_of_era_day(day_of_era: i64) -> (r: (i64, i64, i64))
    requires
        0 <= day_of_era < 146097,
    ensures
        (r.0 as int, r.1 as int, r.2 as int) == civil_in_era(day_of_era as int),
        0 <= r.0 < 400,
        1 <= r.1 <= 12,
        1 <= r.2 <= 31,
{
    let year_of_era = (day_of_era - day_of_era / 1460 + day_of_era / 36_524 - day_of_era / 146_096) / 365;
    let day_of_year = day_of_era - (365 * year_of_era + year_of_era / 4 - year_of_era / 100);
    assert(0 <= day_of_year < 366) by (nonlinear_arith)
        requires
            0 <= day_of_era < 146097,
            year_of_era == (day_of_era - day_of_era / 1460 + day_of_era / 36524 - day_of_era / 146096) / 365,
            day_of_year == day_of_era - (365 * year_of_era + year_of_era / 4 - year_of_era / 100),
    ;
    let shifted_month = (5 * day_of_year + 2) / 153;
    let day = day_of_year - (153 * shifted_month + 2) / 5 + 1;
    let month = if shifted_month < 10 {
        shifted_month + 3
    } else {
        shifted_month - 9
    };
    (year_of_era, month, day)
}

/// The inverse of [`Date::to_days`].
pub fn from_days(days: i64) -> (d: Date)
    requires
        days <= i64::MAX - 719_468,
    ensures
        d == date_from_days(days as int),
        i32::MIN <= civil_from_days(days as int).0 <= i32::MAX ==> is_real_date(d) && d.days_spec() == days,
{
    let shifted: i64 = days + 719_468;
    let era: i64 = if shifted >= 0 {
        shifted / 146_097
    } else {
        -((-shifted + 146_096) / 146_097)
    };
    assert(era == shifted as int / 146097) by (nonlinear_arith)
        requires
            shifted >= 0 ==> era == shifted as int / 146097,
            shifted < 0 ==> era == -((-shifted + 146096) / 146097),
    ;
    let day_of_era = shifted - era * 146_097;
    let (year_of_era, month, day) = civil_of_era_day(day_of_era);
    let year = year_of_era + era * 400;
    let full_year = if month <= 2 { year + 1 } else { year };
    proof {
        if i32::MIN <= civil_from_days(days as int).0 <= i32::MAX {
            lemma_found_dates_are_real(days as int);
            lemma_days_round_trip(days as int);
        }
    }
    Date {
        year: #[verifier::truncate] (full_year as i32),
        month: month as u32,
        day: day as u32,
    }
}

/// `n` zeros.
pub open spec fn zeros(n: int) -> Seq<char> {
    Seq::new(if n > 0 { n as nat } else { 0 }, |i: int| '0')
}

/// A number in decimal, zero-padded to `width` characters, a minus sign
/// included: what `{:0width$}` writes.
pub open spec fn zero_padded(n: int, width: int) -> Seq<char> {
    if n < 0 {
        seq!['-'] + zeros(width - 1 - decimal((-n) as nat).len()) + decimal((-n) as nat)
    } else {
        zeros(width - decimal(n as nat).len()) + decimal(n as nat)
    }
}

/// Whether `s` holds only digits and `-`, `T` and `:`.
pub open spec fn stamp_chars(s: Seq<char>) -> bool {
    forall|i: int| 0 <= i < s.len() ==> is_digit(#[trigger] s[i]) || s[i] == '-' || s[i] == 'T' || s[i] == ':'
}

proof fn lemma_stamp_chars_concat(x: Seq<char>, y: Seq<char>)
    requires
        stamp_chars(x),
        stamp_chars(y),
    ensures
        stamp_chars(x + y),
{
    assert forall|i: int| 0 <= i < (x + y).len() implies is_digit(#[trigger] (x + y)[i]) || (x + y)[i] == '-'
        || (x + y)[i] == 'T' || (x + y)[i] == ':' by {
        if i < x.len() {
            assert((x + y)[i] == x[i]);
        } else {
            assert((x + y)[i] == y[i - x.len()]);
        }
    }
}

proof fn lemma_padded_stamp_chars(n: int, width: int)
    ensures
        stamp_chars(zero_padded(n, width)),
{
    let m: nat = if n < 0 { (-n) as nat } else { n as nat };
    lemma_decimal_reads_back(m);
    let z = zeros(if n < 0 { width - 1 - decimal(m).len() } else { width - decimal(m).len() });
    assert(stamp_chars(z));
    assert(stamp_chars(decimal(m)));
    lemma_stamp_chars_concat(z, decimal(m));
    if n < 0 {
        assert(stamp_chars(seq!['-']));
        lemma_stamp_chars_concat(seq!['-'], z);
        lemma_stamp_chars_concat(seq!['-'] + z, decimal(m));
    }
}

/// A timestamp is made of digits, `-`, `T` and `:` alone, so it holds no tab
/// and no line break and fills one column of a row.
pub proof fn lemma_timestamps_fill_one_column(date: Date, hour: u32, minute: u32, second: u32)
    ensures
        stamp_chars(timestamp_spec(date, hour, minute, second)),
        free_of(timestamp_spec(date, hour, minute, second), '\t'),
        free_of(timestamp_spec(date, hour, minute, second), '\n'),
{
    let y = zero_padded(date.year as int, 4);
    let mo = zero_padded(date.month as int, 2);
    let d = zero_padded(date.day as int, 2);
    let h = zero_padded(hour as int, 2);
    let mi = zero_padded(minute as int, 2);
    let se = zero_padded(second as int, 2);
    lemma_padded_stamp_chars(date.year as int, 4);
    lemma_padded_stamp_chars(date.month as int, 2);
    lemma_padded_stamp_chars(date.day as int, 2);
    lemma_padded_stamp_chars(hour as int, 2);
    lemma_padded_stamp_chars(minute as int, 2);
    lemma_padded_stamp_chars(second as int, 2);
    assert(stamp_chars(seq!['-']));
    assert(stamp_chars(seq!['T']));
    assert(stamp_chars(seq![':']));
    lemma_stamp_chars_concat(y, seq!['-']);
    lemma_stamp_chars_concat(y + seq!['-'], mo);
    lemma_stamp_chars_concat(y + seq!['-'] + mo, seq!['-']);
    lemma_stamp_chars_concat(y + seq!['-'] + mo + seq!['-'], d);
    lemma_stamp_chars_concat(y + seq!['-'] + mo + seq!['-'] + d, seq!['T']);
    lemma_stamp_chars_concat(y + seq!['-'] + mo + seq!['-'] + d + seq!['T'], h);
    lemma_stamp_chars_concat(y + seq!['-'] + mo + seq!['-'] + d + seq!['T'] + h, seq![':']);
    lemma_stamp_chars_concat(y + seq!['-'] + mo + seq!['-'] + d + seq!['T'] + h + seq![':'], mi);
    lemma_stamp_chars_concat(y + seq!['-'] + mo + seq!['-'] + d + seq!['T'] + h + seq![':'] + mi, seq![':']);
    lemma_stamp_chars_concat(y + seq!['-'] + mo + seq!['-'] + d + seq!['T'] + h + seq![':'] + mi + seq![':'], se);
    let t = timestamp_spec(date, hour, minute, second);
    assert forall|i: int| 0 <= i < t.len() implies t[i] != '\t' && t[i] != '\n' by {
        assert(is_digit(t[i]) || t[i] == '-' || t[i] == 'T' || t[i] == ':');
    }
}

/// Writes a number zero-padded to `width` characters.
pub fn pad_number(n: i64, width: usize) -> (s: String)
    ensures
        s@ == zero_padded(n as int, width as int),
{
    let magnitude: u64 = if n < 0 {
        if n == i64::MIN {
            0x8000_0000_0000_0000u64
        } else {
            (-n) as u64
        }
    } else {
        n as u64
    };
    let digits = decimal_u64(magnitude);
    // The zeros go between the sign and the digits.
    let room: usize = if n < 0 {
        if width > 0 { width - 1 } else { 0 }
    } else {
        width
    };
    let mut out = String::new();
    if n < 0 {
        push_char(&mut out, '-');
    }
    let ghost sign = out@;
    let ghost len = digits@.len() as int;
    let mut k: usize = digits.unicode_len();
    let mut pad: usize = 0;
    while k < room
        invariant
            len == digits@.len(),
            k == len + pad,
            pad == 0 || k <= room,
            out@ == sign + zeros(pad as int),
        decreases room - k,
    {
        push_char(&mut out, '0');
        k = k + 1;
        pad = pad + 1;
        assert(out@ =~= sign + zeros(pad as int));
    }
    push_str(&mut out, digits.as_str());
    proof {
        assert(zeros(pad as int) =~= zeros(room - len));
        if n < 0 {
            assert(sign =~= seq!['-']);
            assert(zeros(room - len) =~= zeros(width - 1 - len));
        } else {
            assert(sign =~= Seq::<char>::empty());
        }
        assert(out@ =~= zero_padded(n as int, width as int));
    }
    out
}

/// An ISO 8601 local timestamp, e.g. `2026-08-31T09:15:00`.
pub open spec fn timestamp_spec(date: Date, hour: u32, minute: u32, second: u32) -> Seq<char> {
    zero_padded(date.year as int, 4) + seq!['-'] + zero_padded(date.month as int, 2) + seq!['-']
        + zero_padded(date.day as int, 2) + seq!['T'] + zero_padded(hour as int, 2) + seq![':']
        + zero_padded(minute as int, 2) + seq![':'] + zero_padded(second as int, 2)
}

/// The timestamp for a local clock reading `(date, hour, minute, second)`.
pub fn timestamp(now: (Date, u32, u32, u32)) -> (s: String)
    ensures
        s@ == timestamp_spec(now.0, now.1, now.2, now.3),
{
    let (date, hour, minute, second) = now;
    let mut out = pad_number(date.year as i64, 4);
    push_char(&mut out, '-');
    push_str(&mut out, pad_number(date.month as i64, 2).as_str());
    push_char(&mut out, '-');
    push_str(&mut out, pad_number(date.day as i64, 2).as_str());
    push_char(&mut out, 'T');
    push_str(&mut out, pad_number(hour as i64, 2).as_str());
    push_char(&mut out, ':');
    push_str(&mut out, pad_number(minute as i64, 2).as_str());
    push_char(&mut out, ':');
    push_str(&mut out, pad_number(second as i64, 2).as_str());
    out
}

/// The date part of an ISO 8601 timestamp: the part before any `T`, as
/// `year-month-day` (anything after a third `-` is ignored), with a month
/// of 1 to 12 and a day of 1 to 31.
pub open spec fn parse_date_spec(text: Seq<char>) -> Option<Date> {
    let date = fields(text, 'T')[0];
    let parts = fields(date, '-');
    if parts.len() < 3 {
        None
    } else {
        match (
            parsed(parts[0], true, i32::MIN as int, i32::MAX as int),
            parsed(parts[1], false, 0, u32::MAX as int),
            parsed(parts[2], false, 0, u32::MAX as int),
        ) {
            (Some(y), Some(m), Some(d)) => if 1 <= m <= 12 && 1 <= d <= 31 {
                Some(Date { year: y as i32, month: m as u32, day: d as u32 })
            } else {
                None
            },
            _ => None,
        }
    }
}

proof fn lemma_leading_zeros(k: int, t: Seq<char>)
    ensures
        digits_value(zeros(k) + t) == digits_value(t),
        forall|i: int| 0 <= i < zeros(k).len() ==> #[trigger] zeros(k)[i] == '0',
    decreases t.len() + (if k > 0 { k } else { 0 }),
{
    if t.len() > 0 {
        lemma_leading_zeros(k, t.drop_last());
        assert((zeros(k) + t).drop_last() =~= zeros(k) + t.drop_last());
    } else if k > 0 {
        lemma_leading_zeros(k - 1, t);
        assert((zeros(k) + t).drop_last() =~= zeros(k - 1) + t);
        assert(zeros(k) + t =~= zeros(k));
        assert(zeros(k - 1) + t =~= zeros(k - 1));
    } else {
        assert(zeros(k) + t =~= Seq::<char>::empty());
    }
}

/// A natural number zero-padded reads back as itself, and holds nothing but
/// digits.
proof fn lemma_padded_reads_back(n: nat, width: int)
    ensures
        all_digits(zero_padded(n as int, width)),
        digits_value(zero_padded(n as int, width)) == n,
{
    let d = decimal(n);
    let z = zeros(width - d.len());
    lemma_decimal_reads_back(n);
    lemma_leading_zeros(width - d.len(), d);
    let p = z + d;
    assert forall|i: int| 0 <= i < p.len() implies is_digit(#[trigger] p[i]) by {
        if i < z.len() {
            assert(p[i] == '0');
        } else {
            assert(p[i] == d[i - z.len()]);
        }
    }
}

/// Digits hold no separator.
proof fn lemma_digits_free(s: Seq<char>, c: char)
    requires
        all_digits(s),
        !is_digit(c),
    ensures
        free_of(s, c),
{
}

/// A timestamp reads back as the date it was written for: the date part
/// parses to the same year, month and day, for any date from the year 0 on.
pub proof fn lemma_timestamp_reads_back(date: Date, hour: u32, minute: u32, second: u32)
    requires
        date.year >= 0,
        1 <= date.month <= 12,
        1 <= date.day <= 31,
    ensures
        parse_date_spec(timestamp_spec(date, hour, minute, second)) == Some(date),
{
    let y = zero_padded(date.year as int, 4);
    let m = zero_padded(date.month as int, 2);
    let d = zero_padded(date.day as int, 2);
    let h = zero_padded(hour as int, 2);
    let mi = zero_padded(minute as int, 2);
    let sec = zero_padded(second as int, 2);
    lemma_padded_reads_back(date.year as nat, 4);
    lemma_padded_reads_back(date.month as nat, 2);
    lemma_padded_reads_back(date.day as nat, 2);
    lemma_digits_free(y, '-');
    lemma_digits_free(m, '-');
    lemma_digits_free(d, '-');
    lemma_digits_free(y, 'T');
    lemma_digits_free(m, 'T');
    lemma_digits_free(d, 'T');
    let front = y.push('-') + m.push('-') + d;
    let rest = h + seq![':'] + mi + seq![':'] + sec;
    let text = timestamp_spec(date, hour, minute, second);
    assert(text =~= front.push('T') + rest);
    assert(free_of(front, 'T')) by {
        assert forall|i: int| 0 <= i < front.len() implies front[i] != 'T' by {
            if i < y.len() {
                assert(front[i] == y[i]);
            } else if i == y.len() {
            } else if i < y.len() + 1 + m.len() {
                assert(front[i] == m[i - y.len() - 1]);
            } else if i == y.len() + 1 + m.len() {
            } else {
                assert(front[i] == d[i - y.len() - 2 - m.len()]);
            }
        }
    }
    crate::text::lemma_index_of_after_free(front, 'T', rest);
    assert(text.take(front.len() as int) =~= front);
    assert(fields(text, 'T')[0] == front);
    let parts = seq![y, m, d];
    assert(joined(parts, '-') =~= front) by {
        assert(parts.drop_last() =~= seq![y, m]);
        assert(parts.drop_last().drop_last() =~= seq![y]);
        assert(joined(seq![y], '-') == y);
        assert(joined(seq![y, m], '-') == y.push('-') + m);
    }
    assert forall|k: int| 0 <= k < parts.len() implies free_of(#[trigger] parts[k], '-') by {
        if k == 0 {
        } else if k == 1 {
        } else {
        }
    }
    crate::text::lemma_fields_of_joined(parts, '-');
    assert(is_digit(y[0]) && is_digit(m[0]) && is_digit(d[0]));
}

/// The date part of an ISO 8601 timestamp, or `None` if it cannot be read.
pub fn parse_date(text: &str) -> (r: Option<Date>)
    ensures
        r == parse_date_spec(text@),
{
    let dates = split_fields(text, 'T');
    proof {
        crate::text::lemma_fields_nonempty(text@, 'T');
    }
    let date = dates[0];
    let parts = split_fields(date, '-');
    if parts.len() < 3 {
        return None;
    }
    let year = match parse_i32(parts[0]) {
        Some(y) => y,
        None => return None,
    };
    let month = match parse_u32(parts[1]) {
        Some(m) => m,
        None => return None,
    };
    let day = match parse_u32(parts[2]) {
        Some(d) => d,
        None => return None,
    };
    if !(1 <= month && month <= 12) || !(1 <= day && day <= 31) {
        return None;
    }
    Some(Date { year, month, day })
}

/// An ISO 8601 timestamp for local midnight `days` before `today`, the way a
/// real session would be dated.
pub fn days_ago(today: Date, days: i64) -> (s: String)
    requires
        today.days_spec() - days <= i64::MAX - 719_468,
        i64::MIN <= today.days_spec() - days,
    ensures
        s@ == timestamp_spec(date_from_days(today.days_spec() - days), 0, 0, 0),
{
    let date = from_days(today.to_days() - days);
    timestamp((date, 0, 0, 0))
}

} // verus!
