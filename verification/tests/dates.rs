use wispr::date::{change_current_date, Date, DateError};
use wispr::today::{get_today_date, today_string};

#[test]
fn leap_year_forward() {
    assert_eq!(change_current_date("2024-02-28", 1).unwrap(), "2024-02-29");
}

#[test]
fn non_leap_year_forward() {
    assert_eq!(change_current_date("2023-02-28", 1).unwrap(), "2023-03-01");
}

#[test]
fn century_is_not_leap() {
    assert_eq!(change_current_date("1900-02-28", 1).unwrap(), "1900-03-01");
}

#[test]
fn four_hundred_years_is_leap() {
    assert_eq!(change_current_date("2000-02-28", 1).unwrap(), "2000-02-29");
}

#[test]
fn year_boundary_forward() {
    assert_eq!(change_current_date("2023-12-31", 1).unwrap(), "2024-01-01");
}

#[test]
fn year_boundary_backward() {
    assert_eq!(change_current_date("2024-01-01", -1).unwrap(), "2023-12-31");
}

#[test]
fn leap_day_backward() {
    assert_eq!(change_current_date("2024-03-01", -1).unwrap(), "2024-02-29");
}

#[test]
fn long_shift() {
    assert_eq!(change_current_date("2024-01-01", 366).unwrap(), "2025-01-01");
    assert_eq!(change_current_date("2025-01-01", -366).unwrap(), "2024-01-01");
}

#[test]
fn shift_round_trip() {
    let d = "2021-07-15";
    let n = 37;
    let shifted = change_current_date(d, n).unwrap();
    assert_eq!(change_current_date(&shifted, -n).unwrap(), d);
}

#[test]
fn shift_round_trip_across_leap_day() {
    let d = "2024-02-01";
    let n = 60;
    let shifted = change_current_date(d, n).unwrap();
    assert_eq!(change_current_date(&shifted, -n).unwrap(), d);
}

#[test]
fn malformed_date_is_a_parse_error() {
    assert_eq!(change_current_date("not-a-date", 1), Err(DateError::Parse));
}

#[test]
fn parse_rejects_loose_shapes() {
    assert_eq!(change_current_date("2024-2-28", 1), Err(DateError::Parse));
    assert_eq!(change_current_date("2024/02/28", 1), Err(DateError::Parse));
    assert_eq!(change_current_date("2024-02-281", 1), Err(DateError::Parse));
    assert_eq!(change_current_date("", 1), Err(DateError::Parse));
    assert_eq!(change_current_date(" 2024-02-28", 1), Err(DateError::Parse));
}

#[test]
fn parse_rejects_impossible_dates() {
    assert_eq!(change_current_date("2023-02-29", 1), Err(DateError::Parse));
    assert_eq!(change_current_date("2024-02-30", 1), Err(DateError::Parse));
    assert_eq!(change_current_date("2024-13-01", 1), Err(DateError::Parse));
    assert_eq!(change_current_date("2024-00-10", 1), Err(DateError::Parse));
    assert_eq!(change_current_date("2024-04-31", 1), Err(DateError::Parse));
    assert_eq!(change_current_date("2024-01-00", 1), Err(DateError::Parse));
}

#[test]
fn shift_beyond_largest_date() {
    assert_eq!(change_current_date("9999-12-31", 1), Err(DateError::OutOfRange));
}

#[test]
fn shift_before_smallest_date() {
    assert_eq!(change_current_date("0000-01-01", -1), Err(DateError::OutOfRange));
}

#[test]
fn huge_shift_is_out_of_range() {
    assert_eq!(change_current_date("2024-01-01", i64::MAX), Err(DateError::OutOfRange));
    assert_eq!(change_current_date("2024-01-01", i64::MIN), Err(DateError::OutOfRange));
}

#[test]
fn parse_gives_the_fields() {
    assert_eq!(
        Date::parse("2024-02-29"),
        Some(Date { year: 2024, month: 2, day: 29 })
    );
    assert_eq!(Date::parse("0000-01-01"), Some(Date { year: 0, month: 1, day: 1 }));
    assert_eq!(Date::parse("2023-02-29"), None);
}

#[test]
fn format_is_zero_padded() {
    let d = Date { year: 7, month: 3, day: 9 };
    assert_eq!(d.format(), "0007-03-09");
}

#[test]
fn add_days_crosses_months() {
    let d = Date { year: 2024, month: 2, day: 28 };
    assert_eq!(d.add_days(2).unwrap(), Date { year: 2024, month: 3, day: 1 });
    assert_eq!(
        d.add_days(-28).unwrap(),
        Date { year: 2024, month: 1, day: 31 }
    );
}

#[test]
fn today_is_the_host_date() {
    let before = chrono::Local::now().date_naive();
    let today = get_today_date();
    let after = chrono::Local::now().date_naive();
    let fmt_before = before.format("%Y-%m-%d").to_string();
    let fmt_after = after.format("%Y-%m-%d").to_string();
    assert!(today == fmt_before || today == fmt_after);
}

#[test]
fn today_matches_the_date_shape() {
    let today = get_today_date();
    let bytes = today.as_bytes();
    assert_eq!(bytes.len(), 10);
    for (i, b) in bytes.iter().enumerate() {
        if i == 4 || i == 7 {
            assert_eq!(*b, b'-');
        } else {
            assert!(b.is_ascii_digit());
        }
    }
}

#[test]
fn today_string_renders_the_day() {
    assert_eq!(today_string(2024, 2, 29), "2024-02-29");
    assert_eq!(today_string(33, 12, 5), "0033-12-05");
}

#[test]
fn today_string_pins_unprintable_years() {
    assert_eq!(today_string(-5, 3, 10), "0000-01-01");
    assert_eq!(today_string(12000, 1, 15), "9999-12-31");
}

#[test]
fn year_zero_boundary() {
    assert_eq!(change_current_date("0001-01-01", -1).unwrap(), "0000-12-31");
}

#[test]
fn thirty_day_month_rolls() {
    assert_eq!(change_current_date("2024-04-30", 1).unwrap(), "2024-05-01");
    assert_eq!(change_current_date("2024-06-15", 30).unwrap(), "2024-07-15");
}

#[test]
fn next_and_prev_step_one_day() {
    let d = Date { year: 2024, month: 2, day: 29 };
    assert_eq!(d.next(), Date { year: 2024, month: 3, day: 1 });
    assert_eq!(d.prev(), Date { year: 2024, month: 2, day: 28 });
}

#[test]
fn zero_shift_normalizes_nothing() {
    assert_eq!(change_current_date("2024-02-29", 0).unwrap(), "2024-02-29");
}
