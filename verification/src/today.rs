use vstd::prelude::*;

use crate::date::{days_in_month_spec, format_spec, lemma_format_parse, parse_spec, Date};

verus! {

/// Relies on `chrono::Local::now` and the `chrono::Datelike` accessors on
/// the `NaiveDate` it carries: `month` is 1 to 12 and `day` is 1 to the
/// month's length, since a `NaiveDate` always holds a valid proleptic
/// Gregorian calendar date. The year is whatever the host clock and time
/// zone give.
#[verifier::external_body]
fn local_today_ymd() -> (r: (i32, u32, u32))
    ensures
        1 <= r.1 <= 12,
        1 <= r.2 <= days_in_month_spec(r.0 as int, r.1 as int),
{
    let today = chrono::Local::now().date_naive();
    (
        chrono::Datelike::year(&today),
        chrono::Datelike::month(&today),
        chrono::Datelike::day(&today),
    )
}

/// Renders a calendar day as `YYYY-MM-DD`. Years outside 0..=9999 cannot
/// be spelt in that shape; they render as the nearest date that can.
pub fn today_string(y: i32, m: u32, d: u32) -> (r: String)
    requires
        1 <= m <= 12,
        1 <= d <= days_in_month_spec(y as int, m as int),
    ensures
        parse_spec(r@) is Some,
        0 <= y <= 9999 ==> r@ == format_spec(
            Date { year: y as u16, month: m as u8, day: d as u8 },
        ),
        y < 0 ==> r@ == format_spec(Date { year: 0, month: 1, day: 1 }),
        y > 9999 ==> r@ == format_spec(Date { year: 9999, month: 12, day: 31 }),
{
    let date = if y < 0 {
        Date { year: 0, month: 1, day: 1 }
    } else if y > 9999 {
        Date { year: 9999, month: 12, day: 31 }
    } else {
        Date { year: y as u16, month: m as u8, day: d as u8 }
    };
    proof {
        lemma_format_parse(date);
    }
    date.format()
}

/// The host's current local calendar date, as `YYYY-MM-DD`: always a
/// string that `Date::parse` accepts.
pub fn get_today_date() -> (r: String)
    ensures
        parse_spec(r@) is Some,
{
    let (y, m, d) = local_today_ymd();
    today_string(y, m, d)
}

} // verus!
