use std::time::{SystemTime, UNIX_EPOCH};

use typr::datetime::{days_ago, from_days, parse_date, timestamp, Date};

/// The clock reading now, in UTC: the library takes the reading as a value.
fn now() -> (Date, u32, u32, u32) {
    let seconds = SystemTime::now()
        .duration_since(UNIX_EPOCH)
        .unwrap()
        .as_secs() as i64;
    let of_day = seconds.rem_euclid(86_400);

    (
        from_days(seconds.div_euclid(86_400)),
        (of_day / 3600) as u32,
        (of_day % 3600 / 60) as u32,
        (of_day % 60) as u32,
    )
}

fn today() -> Date {
    now().0
}

#[test]
fn the_epoch_is_day_zero() {
    assert_eq!(
        Date {
            year: 1970,
            month: 1,
            day: 1
        }
        .to_days(),
        0
    );
}

#[test]
fn days_advance_one_at_a_time() {
    let first = Date {
        year: 2026,
        month: 8,
        day: 31,
    };
    let second = Date {
        year: 2026,
        month: 9,
        day: 1,
    };

    assert_eq!(second.diff(first), 1);
}

#[test]
fn diff_spans_a_leap_day() {
    let before = Date {
        year: 2024,
        month: 2,
        day: 28,
    };
    let after = Date {
        year: 2024,
        month: 3,
        day: 1,
    };

    assert_eq!(after.diff(before), 2);
}

#[test]
fn diff_spans_a_year_boundary() {
    let before = Date {
        year: 2025,
        month: 12,
        day: 31,
    };
    let after = Date {
        year: 2026,
        month: 1,
        day: 1,
    };

    assert_eq!(after.diff(before), 1);
}

#[test]
fn a_century_that_is_not_a_leap_year_is_handled() {
    let before = Date {
        year: 1900,
        month: 2,
        day: 28,
    };
    let after = Date {
        year: 1900,
        month: 3,
        day: 1,
    };

    assert_eq!(after.diff(before), 1);
}

#[test]
fn days_round_trip_through_dates() {
    for offset in -2000..2000 {
        let days = today().to_days() + offset;
        assert_eq!(from_days(days).to_days(), days);
    }
}

#[test]
fn timestamps_parse_back_to_their_date() {
    assert_eq!(
        parse_date("2026-08-31T09:15:00"),
        Some(Date {
            year: 2026,
            month: 8,
            day: 31
        })
    );
}

#[test]
fn a_bare_date_parses_too() {
    assert_eq!(
        parse_date("2026-08-31"),
        Some(Date {
            year: 2026,
            month: 8,
            day: 31
        })
    );
}

#[test]
fn nonsense_does_not_parse() {
    assert_eq!(parse_date("this is not a date"), None);
    assert_eq!(parse_date("2026-13-01"), None);
    assert_eq!(parse_date(""), None);
}

#[test]
fn the_current_timestamp_round_trips() {
    let now = now();

    assert_eq!(parse_date(&timestamp(now)), Some(now.0));
}

#[test]
fn days_ago_counts_backwards_from_today() {
    assert_eq!(parse_date(&days_ago(today(), 0)), Some(today()));
    assert_eq!(today().diff(parse_date(&days_ago(today(), 3)).unwrap()), 3);
}

#[test]
fn a_timestamp_is_zero_padded() {
    let date = Date {
        year: 987,
        month: 3,
        day: 4,
    };

    assert_eq!(timestamp((date, 5, 6, 7)), "0987-03-04T05:06:07");
}

#[test]
fn from_days_knows_the_leap_day() {
    let leap = Date {
        year: 2024,
        month: 2,
        day: 29,
    };

    assert_eq!(from_days(leap.to_days()), leap);
    assert_eq!(from_days(-1), Date { year: 1969, month: 12, day: 31 });
}

#[test]
fn a_signed_year_parses() {
    assert_eq!(
        parse_date("-44-03-15"),
        None,
        "a leading minus splits off an empty year"
    );
    assert_eq!(
        parse_date("+2026-01-02"),
        Some(Date {
            year: 2026,
            month: 1,
            day: 2
        })
    );
}

#[test]
fn a_day_or_month_out_of_range_does_not_parse() {
    assert_eq!(parse_date("2026-00-10"), None);
    assert_eq!(parse_date("2026-01-32"), None);
    assert_eq!(parse_date("2026-01"), None);
}

#[test]
fn days_ago_stamps_local_midnight() {
    let today = Date {
        year: 2024,
        month: 3,
        day: 2,
    };
    assert_eq!(days_ago(today, 2), "2024-02-29T00:00:00");
    assert_eq!(days_ago(today, 0), "2024-03-02T00:00:00");
}

#[test]
fn real_dates_come_back_from_their_day_count() {
    for (year, month, day) in [
        (2000, 2, 29),
        (1900, 2, 28),
        (1900, 3, 1),
        (2024, 12, 31),
        (1, 1, 1),
        (-400, 2, 29),
        (1969, 12, 31),
    ] {
        let date = Date { year, month, day };
        assert_eq!(from_days(date.to_days()), date);
    }
}
