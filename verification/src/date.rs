use vstd::prelude::*;

verus! {

/// Errors of the date operations: the input string is not a date in
/// `YYYY-MM-DD` form, or the shifted date falls outside the years 0..=9999
/// that this format can carry.
#[derive(Clone, Copy, PartialEq, Eq, Structural, Debug)]
pub enum DateError {
    Parse,
    OutOfRange,
}

/// A calendar date of the proleptic Gregorian calendar, held as plain
/// year, month and day numbers. Valid values are described by `valid_date`.
#[derive(Clone, Copy, PartialEq, Eq, Structural, Debug)]
pub struct Date {
    pub year: u16,
    pub month: u8,
    pub day: u8,
}

/// Whether `y` is a leap year in the proleptic Gregorian calendar.
pub open spec fn is_leap_spec(y: int) -> bool {
    y % 4 == 0 && (y % 100 != 0 || y % 400 == 0)
}

/// The number of days of month `m` (1-based) of year `y`.
pub open spec fn days_in_month_spec(y: int, m: int) -> int {
    if m == 2 {
        if is_leap_spec(y) { 29 } else { 28 }
    } else if m == 4 || m == 6 || m == 9 || m == 11 {
        30
    } else {
        31
    }
}

/// Whether year `y`, month `m`, day `d` name a calendar date that the
/// `YYYY-MM-DD` format can carry.
pub open spec fn valid_ymd(y: int, m: int, d: int) -> bool {
    0 <= y <= 9999 && 1 <= m <= 12 && 1 <= d <= days_in_month_spec(y, m)
}

/// Whether `d` is a valid date.
pub open spec fn valid_date(d: Date) -> bool {
    valid_ymd(d.year as int, d.month as int, d.day as int)
}

/// The number of days of year `y`.
pub open spec fn year_len_spec(y: int) -> int {
    if is_leap_spec(y) { 366 } else { 365 }
}

/// The number of days of all years before year `y`, counted from year 0.
pub open spec fn days_before_year(y: int) -> int
    decreases y,
{
    if y <= 0 {
        0
    } else {
        days_before_year(y - 1) + year_len_spec(y - 1)
    }
}

/// The number of days of the months of year `y` that lie before month `m`.
pub open spec fn days_before_month(y: int, m: int) -> int
    decreases m,
{
    if m <= 1 {
        0
    } else {
        days_before_month(y, m - 1) + days_in_month_spec(y, m - 1)
    }
}

/// The index of a date: how many days lie between `0000-01-01` and `d`.
/// It orders the valid dates and each shift by `n` days adds `n` to it.
pub open spec fn date_index(d: Date) -> int {
    days_before_year(d.year as int) + days_before_month(d.year as int, d.month as int)
        + d.day as int - 1
}

/// The indices that a valid date can have: `0000-01-01` has index 0 and
/// `9999-12-31` has the largest index, `days_before_year(10000) - 1`.
pub open spec fn index_in_range(i: int) -> bool {
    0 <= i < days_before_year(10000)
}

/// Whether `y` is a leap year.
pub fn is_leap_year(y: u16) -> (r: bool)
    ensures
        r == is_leap_spec(y as int),
{
    y % 4 == 0 && (y % 100 != 0 || y % 400 == 0)
}

/// The number of days of month `m` of year `y`.
pub fn days_in_month(y: u16, m: u8) -> (r: u8)
    requires
        1 <= m <= 12,
    ensures
        r == days_in_month_spec(y as int, m as int),
{
    if m == 2 {
        if is_leap_year(y) { 29 } else { 28 }
    } else if m == 4 || m == 6 || m == 9 || m == 11 {
        30
    } else {
        31
    }
}

/// The months of a year sum to its length.
proof fn lemma_year_len_is_month_sum(y: int)
    ensures
        days_before_month(y, 13) == year_len_spec(y),
{
    reveal_with_fuel(days_before_month, 13);
}

/// `days_before_month` grows with the month.
proof fn lemma_dbm_mono(y: int, m1: int, m2: int)
    requires
        1 <= m1 <= m2 <= 13,
    ensures
        days_before_month(y, m1) <= days_before_month(y, m2),
    decreases m2 - m1,
{
    if m1 < m2 {
        lemma_dbm_mono(y, m1, m2 - 1);
    }
}

/// `days_before_year` grows with the year.
proof fn lemma_dby_mono(y1: int, y2: int)
    requires
        0 <= y1 <= y2,
    ensures
        days_before_year(y1) <= days_before_year(y2),
    decreases y2 - y1,
{
    if y1 < y2 {
        lemma_dby_mono(y1, y2 - 1);
    }
}

/// Within one year, a date of an earlier month has a smaller index than
/// any date of a later month.
proof fn lemma_month_order(y: int, m1: int, m2: int)
    requires
        1 <= m1 < m2 <= 12,
    ensures
        days_before_month(y, m1) + days_in_month_spec(y, m1) <= days_before_month(y, m2),
{
    assert(days_before_month(y, m1 + 1) == days_before_month(y, m1) + days_in_month_spec(y, m1));
    lemma_dbm_mono(y, m1 + 1, m2);
}

/// A valid date's index lies between the index of the first day of its year
/// and the index of the first day of the next year.
proof fn lemma_index_year_bounds(d: Date)
    requires
        valid_date(d),
    ensures
        days_before_year(d.year as int) <= date_index(d),
        date_index(d) < days_before_year(d.year as int + 1),
{
    let y = d.year as int;
    let m = d.month as int;
    lemma_dbm_mono(y, 1, m);
    assert(days_before_month(y, m + 1) == days_before_month(y, m) + days_in_month_spec(y, m));
    lemma_dbm_mono(y, m + 1, 13);
    lemma_year_len_is_month_sum(y);
    assert(days_before_year(y + 1) == days_before_year(y) + year_len_spec(y));
}

/// Every valid date's index is in range.
pub proof fn lemma_index_bounds(d: Date)
    requires
        valid_date(d),
    ensures
        index_in_range(date_index(d)),
{
    lemma_index_year_bounds(d);
    lemma_dby_mono(0, d.year as int);
    lemma_dby_mono(d.year as int + 1, 10000);
}

/// No two distinct valid dates share an index.
pub proof fn lemma_index_injective(d1: Date, d2: Date)
    requires
        valid_date(d1),
        valid_date(d2),
        date_index(d1) == date_index(d2),
    ensures
        d1 == d2,
{
    lemma_index_year_bounds(d1);
    lemma_index_year_bounds(d2);
    if d1.year < d2.year {
        lemma_dby_mono(d1.year as int + 1, d2.year as int);
    }
    if d2.year < d1.year {
        lemma_dby_mono(d2.year as int + 1, d1.year as int);
    }
    let y = d1.year as int;
    if d1.month < d2.month {
        lemma_month_order(y, d1.month as int, d2.month as int);
    }
    if d2.month < d1.month {
        lemma_month_order(y, d2.month as int, d1.month as int);
    }
}

/// The date one day after `d`.
pub open spec fn next_date_spec(d: Date) -> Date {
    if d.day < days_in_month_spec(d.year as int, d.month as int) {
        Date { year: d.year, month: d.month, day: (d.day + 1) as u8 }
    } else if d.month < 12 {
        Date { year: d.year, month: (d.month + 1) as u8, day: 1 }
    } else {
        Date { year: (d.year + 1) as u16, month: 1, day: 1 }
    }
}

/// The date one day before `d`.
pub open spec fn prev_date_spec(d: Date) -> Date {
    if d.day > 1 {
        Date { year: d.year, month: d.month, day: (d.day - 1) as u8 }
    } else if d.month > 1 {
        Date {
            year: d.year,
            month: (d.month - 1) as u8,
            day: days_in_month_spec(d.year as int, d.month as int - 1) as u8,
        }
    } else {
        Date { year: (d.year - 1) as u16, month: 12, day: 31 }
    }
}

/// Stepping to the next day adds one to the index.
pub proof fn lemma_next_date(d: Date)
    requires
        valid_date(d),
        date_index(d) + 1 < days_before_year(10000),
    ensures
        valid_date(next_date_spec(d)),
        date_index(next_date_spec(d)) == date_index(d) + 1,
{
    let y = d.year as int;
    let m = d.month as int;
    if d.day < days_in_month_spec(y, m) {
    } else if d.month < 12 {
        assert(days_before_month(y, m + 1) == days_before_month(y, m) + days_in_month_spec(y, m));
    } else {
        lemma_year_len_is_month_sum(y);
        assert(days_before_month(y, 13) == days_before_month(y, 12) + days_in_month_spec(y, 12));
        assert(days_before_year(y + 1) == days_before_year(y) + year_len_spec(y));
        if d.year == 9999 {
            lemma_index_year_bounds(d);
            assert(false);
        }
    }
}

/// Stepping to the previous day takes one from the index.
pub proof fn lemma_prev_date(d: Date)
    requires
        valid_date(d),
        date_index(d) >= 1,
    ensures
        valid_date(prev_date_spec(d)),
        date_index(prev_date_spec(d)) == date_index(d) - 1,
{
    let y = d.year as int;
    let m = d.month as int;
    if d.day > 1 {
    } else if d.month > 1 {
        assert(days_before_month(y, m) == days_before_month(y, m - 1) + days_in_month_spec(
            y,
            m - 1,
        ));
    } else {
        if d.year == 0 {
            assert(date_index(d) == 0);
            assert(false);
        }
        lemma_year_len_is_month_sum(y - 1);
        assert(days_before_month(y - 1, 13) == days_before_month(y - 1, 12) + days_in_month_spec(
            y - 1,
            12,
        ));
        assert(days_before_year(y) == days_before_year(y - 1) + year_len_spec(y - 1));
    }
}

/// Every index in range belongs to some valid date.
pub proof fn lemma_index_surjective(i: int)
    requires
        index_in_range(i),
    ensures
        exists|d: Date| valid_date(d) && date_index(d) == i,
    decreases i,
{
    if i == 0 {
        let d0 = Date { year: 0, month: 1, day: 1 };
        assert(valid_date(d0));
        assert(date_index(d0) == 0);
    } else {
        lemma_index_surjective(i - 1);
        let d = choose|d: Date| valid_date(d) && date_index(d) == i - 1;
        lemma_next_date(d);
        assert(valid_date(next_date_spec(d)) && date_index(next_date_spec(d)) == i);
    }
}

/// The valid date with index `i`. By `lemma_index_surjective` and
/// `lemma_index_injective` there is exactly one for every index in range.
pub open spec fn date_from_index(i: int) -> Date {
    choose|d: Date| valid_date(d) && date_index(d) == i
}

impl Date {
    /// The date one day after `self`.
    pub fn next(self) -> (r: Date)
        requires
            valid_date(self),
            date_index(self) + 1 < days_before_year(10000),
        ensures
            r == next_date_spec(self),
            valid_date(r),
            date_index(r) == date_index(self) + 1,
    {
        proof {
            lemma_next_date(self);
        }
        let dim = days_in_month(self.year, self.month);
        if self.day < dim {
            Date { year: self.year, month: self.month, day: self.day + 1 }
        } else if self.month < 12 {
            Date { year: self.year, month: self.month + 1, day: 1 }
        } else {
            Date { year: self.year + 1, month: 1, day: 1 }
        }
    }

    /// The date one day before `self`.
    pub fn prev(self) -> (r: Date)
        requires
            valid_date(self),
            date_index(self) >= 1,
        ensures
            r == prev_date_spec(self),
            valid_date(r),
            date_index(r) == date_index(self) - 1,
    {
        proof {
            lemma_prev_date(self);
        }
        if self.day > 1 {
            Date { year: self.year, month: self.month, day: self.day - 1 }
        } else if self.month > 1 {
            let dim = days_in_month(self.year, self.month - 1);
            Date { year: self.year, month: self.month - 1, day: dim }
        } else {
            Date { year: self.year - 1, month: 12, day: 31 }
        }
    }
}

/// `9999-12-31` has the largest index of all valid dates.
pub proof fn lemma_max_date()
    ensures
        date_index(Date { year: 9999, month: 12, day: 31 }) == days_before_year(10000) - 1,
        valid_date(Date { year: 9999, month: 12, day: 31 }),
{
    lemma_year_len_is_month_sum(9999);
    assert(days_before_month(9999, 13) == days_before_month(9999, 12) + days_in_month_spec(
        9999,
        12,
    ));
    assert(days_before_year(10000) == days_before_year(9999) + year_len_spec(9999));
}

impl Date {
    /// The date `n` days after `self` (before, for negative `n`), or
    /// `DateError::OutOfRange` when that date falls outside years 0..=9999.
    pub fn add_days(self, n: i64) -> (r: Result<Date, DateError>)
        requires
            valid_date(self),
        ensures
            r is Ok <==> index_in_range(date_index(self) + n as int),
            r is Ok ==> valid_date(r.unwrap()) && date_index(r.unwrap()) == date_index(self)
                + n as int,
            r is Err ==> r.unwrap_err() == DateError::OutOfRange,
    {
        let mut cur = self;
        let mut k: i64 = n;
        proof {
            lemma_index_bounds(self);
        }
        if n >= 0 {
            while k > 0
                invariant
                    valid_date(cur),
                    0 <= k <= n,
                    date_index(cur) == date_index(self) + n - k,
                decreases k as int,
            {
                proof {
                    lemma_index_bounds(cur);
                    lemma_max_date();
                    if date_index(cur) == days_before_year(10000) - 1 {
                        lemma_index_injective(cur, Date { year: 9999, month: 12, day: 31 });
                    }
                }
                if cur.year == 9999 && cur.month == 12 && cur.day == 31 {
                    assert(cur == Date { year: 9999, month: 12, day: 31 });
                    return Err(DateError::OutOfRange);
                }
                cur = cur.next();
                k = k - 1;
            }
        } else {
            while k < 0
                invariant
                    valid_date(cur),
                    n <= k <= 0,
                    date_index(cur) == date_index(self) + n - k,
                decreases -(k as int),
            {
                proof {
                    lemma_index_bounds(cur);
                }
                if cur.year == 0 && cur.month == 1 && cur.day == 1 {
                    assert(date_index(cur) == 0);
                    return Err(DateError::OutOfRange);
                }
                proof {
                    if date_index(cur) == 0 {
                        assert(date_index(Date { year: 0, month: 1, day: 1 }) == 0);
                        lemma_index_injective(cur, Date { year: 0, month: 1, day: 1 });
                    }
                }
                cur = cur.prev();
                k = k + 1;
            }
        }
        proof {
            lemma_index_bounds(cur);
        }
        Ok(cur)
    }
}

/// Whether `c` is a decimal digit.
pub open spec fn is_digit_char(c: char) -> bool {
    c == '0' || c == '1' || c == '2' || c == '3' || c == '4' || c == '5' || c == '6' || c == '7'
        || c == '8' || c == '9'
}

/// The value of the decimal digit `c`; 10 for any other character.
#[verifier::opaque]
pub open spec fn digit_of(c: char) -> int {
    if c == '0' {
        0
    } else if c == '1' {
        1
    } else if c == '2' {
        2
    } else if c == '3' {
        3
    } else if c == '4' {
        4
    } else if c == '5' {
        5
    } else if c == '6' {
        6
    } else if c == '7' {
        7
    } else if c == '8' {
        8
    } else if c == '9' {
        9
    } else {
        10
    }
}

/// The decimal digit character for `v`; `'9'` for values above 9.
#[verifier::opaque]
pub open spec fn digit_char(v: int) -> char {
    if v == 0 {
        '0'
    } else if v == 1 {
        '1'
    } else if v == 2 {
        '2'
    } else if v == 3 {
        '3'
    } else if v == 4 {
        '4'
    } else if v == 5 {
        '5'
    } else if v == 6 {
        '6'
    } else if v == 7 {
        '7'
    } else if v == 8 {
        '8'
    } else {
        '9'
    }
}

/// The `YYYY-MM-DD` rendering of a date, as a character sequence.
pub open spec fn format_spec(d: Date) -> Seq<char> {
    seq![
        digit_char(d.year as int / 1000),
        digit_char((d.year as int / 100) % 10),
        digit_char((d.year as int / 10) % 10),
        digit_char(d.year as int % 10),
        '-',
        digit_char(d.month as int / 10),
        digit_char(d.month as int % 10),
        '-',
        digit_char(d.day as int / 10),
        digit_char(d.day as int % 10),
    ]
}

/// Whether `s` has the shape `YYYY-MM-DD`: ten characters, digits in the
/// date positions and dashes between them.
pub open spec fn date_shaped(s: Seq<char>) -> bool {
    s.len() == 10 && is_digit_char(s[0]) && is_digit_char(s[1]) && is_digit_char(s[2])
        && is_digit_char(s[3]) && s[4] == '-' && is_digit_char(s[5]) && is_digit_char(s[6])
        && s[7] == '-' && is_digit_char(s[8]) && is_digit_char(s[9])
}

/// The date that `s` spells in `YYYY-MM-DD` form, or `None` where `s` is
/// not of that shape or names no calendar date.
pub open spec fn parse_spec(s: Seq<char>) -> Option<Date> {
    if date_shaped(s) {
        let y = digit_of(s[0]) * 1000 + digit_of(s[1]) * 100 + digit_of(s[2]) * 10 + digit_of(
            s[3],
        );
        let m = digit_of(s[5]) * 10 + digit_of(s[6]);
        let d = digit_of(s[8]) * 10 + digit_of(s[9]);
        if valid_ymd(y, m, d) {
            Some(Date { year: y as u16, month: m as u8, day: d as u8 })
        } else {
            None
        }
    } else {
        None
    }
}

/// A one-character string for the digit `v`.
fn digit_str(v: u8) -> (r: &'static str)
    requires
        v <= 9,
    ensures
        r@ =~= seq![digit_char(v as int)],
{
    proof {
        reveal(digit_char);
        reveal_strlit("0");
        reveal_strlit("1");
        reveal_strlit("2");
        reveal_strlit("3");
        reveal_strlit("4");
        reveal_strlit("5");
        reveal_strlit("6");
        reveal_strlit("7");
        reveal_strlit("8");
        reveal_strlit("9");
    }
    if v == 0 {
        "0"
    } else if v == 1 {
        "1"
    } else if v == 2 {
        "2"
    } else if v == 3 {
        "3"
    } else if v == 4 {
        "4"
    } else if v == 5 {
        "5"
    } else if v == 6 {
        "6"
    } else if v == 7 {
        "7"
    } else if v == 8 {
        "8"
    } else {
        "9"
    }
}

/// The value of the decimal digit `c`, or `None` for any other character.
fn digit_val(c: char) -> (r: Option<u8>)
    ensures
        r is Some <==> is_digit_char(c),
        r is Some ==> r.unwrap() == digit_of(c) && r.unwrap() <= 9,
{
    proof {
        reveal(digit_of);
    }
    if c == '0' {
        Some(0)
    } else if c == '1' {
        Some(1)
    } else if c == '2' {
        Some(2)
    } else if c == '3' {
        Some(3)
    } else if c == '4' {
        Some(4)
    } else if c == '5' {
        Some(5)
    } else if c == '6' {
        Some(6)
    } else if c == '7' {
        Some(7)
    } else if c == '8' {
        Some(8)
    } else if c == '9' {
        Some(9)
    } else {
        None
    }
}

impl Date {
    /// Renders `self` as `YYYY-MM-DD`.
    pub fn format(&self) -> (r: String)
        requires
            valid_date(*self),
        ensures
            r@ == format_spec(*self),
    {
        let y = self.year;
        let mut out = String::new();
        out.append(digit_str((y / 1000) as u8));
        out.append(digit_str(((y / 100) % 10) as u8));
        out.append(digit_str(((y / 10) % 10) as u8));
        out.append(digit_str((y % 10) as u8));
        out.append("-");
        out.append(digit_str(self.month / 10));
        out.append(digit_str(self.month % 10));
        out.append("-");
        out.append(digit_str(self.day / 10));
        out.append(digit_str(self.day % 10));
        proof {
            reveal_strlit("-");
            assert(out@ =~= format_spec(*self));
        }
        out
    }

    /// Reads a date from `s`, accepting exactly the `YYYY-MM-DD` shape.
    pub fn parse(s: &str) -> (r: Option<Date>)
        ensures
            r == parse_spec(s@),
    {
        if s.unicode_len() != 10 {
            return None;
        }
        if s.get_char(4) != '-' || s.get_char(7) != '-' {
            return None;
        }
        let d0 = match digit_val(s.get_char(0)) {
            Some(v) => v,
            None => { return None; },
        };
        let d1 = match digit_val(s.get_char(1)) {
            Some(v) => v,
            None => { return None; },
        };
        let d2 = match digit_val(s.get_char(2)) {
            Some(v) => v,
            None => { return None; },
        };
        let d3 = match digit_val(s.get_char(3)) {
            Some(v) => v,
            None => { return None; },
        };
        let d5 = match digit_val(s.get_char(5)) {
            Some(v) => v,
            None => { return None; },
        };
        let d6 = match digit_val(s.get_char(6)) {
            Some(v) => v,
            None => { return None; },
        };
        let d8 = match digit_val(s.get_char(8)) {
            Some(v) => v,
            None => { return None; },
        };
        let d9 = match digit_val(s.get_char(9)) {
            Some(v) => v,
            None => { return None; },
        };
        let y: u16 = (d0 as u16) * 1000 + (d1 as u16) * 100 + (d2 as u16) * 10 + (d3 as u16);
        let m: u8 = d5 * 10 + d6;
        let d: u8 = d8 * 10 + d9;
        if m < 1 || m > 12 {
            return None;
        }
        if d < 1 || d > days_in_month(y, m) {
            return None;
        }
        Some(Date { year: y, month: m, day: d })
    }
}

/// A digit value is recovered from its character.
proof fn lemma_char_digit_round(v: int)
    requires
        0 <= v <= 9,
    ensures
        digit_of(digit_char(v)) == v,
        is_digit_char(digit_char(v)),
{
    reveal(digit_of);
    reveal(digit_char);
}

/// A number of at most four digits splits into them and recombines.
proof fn lemma_u16_digit_split(y: u16)
    requires
        y <= 9999,
    ensures
        0 <= y as int / 1000 <= 9,
        0 <= (y as int / 100) % 10 <= 9,
        0 <= (y as int / 10) % 10 <= 9,
        0 <= y as int % 10 <= 9,
        y as int == (y as int / 1000) * 1000 + ((y as int / 100) % 10) * 100 + ((y as int / 10)
            % 10) * 10 + y as int % 10,
{
    assert(y <= 9999 ==> y / 1000 <= 9 && y == (y / 1000) * 1000 + ((y / 100) % 10) * 100 + ((y
        / 10) % 10) * 10 + y % 10) by (bit_vector);
}

/// A number of at most two digits splits into them and recombines.
proof fn lemma_u8_digit_split(m: u8)
    requires
        m <= 99,
    ensures
        0 <= m as int / 10 <= 9,
        0 <= m as int % 10 <= 9,
        m as int == (m as int / 10) * 10 + m as int % 10,
{
    assert(m <= 99 ==> m / 10 <= 9 && m == (m / 10) * 10 + m % 10) by (bit_vector);
}

/// Four digit values are recovered from the number they spell.
proof fn lemma_u16_digit_join(a: u16, b: u16, c: u16, e: u16)
    requires
        a <= 9,
        b <= 9,
        c <= 9,
        e <= 9,
    ensures
        (1000 * a + 100 * b + 10 * c + e) as int / 1000 == a as int,
        ((1000 * a + 100 * b + 10 * c + e) as int / 100) % 10 == b as int,
        ((1000 * a + 100 * b + 10 * c + e) as int / 10) % 10 == c as int,
        (1000 * a + 100 * b + 10 * c + e) as int % 10 == e as int,
{
    assert(a <= 9 && b <= 9 && c <= 9 && e <= 9 ==> {
        let y = (1000 * a + 100 * b + 10 * c + e) as u16;
        y / 1000 == a && (y / 100) % 10 == b && (y / 10) % 10 == c && y % 10 == e
    }) by (bit_vector);
}

/// Two digit values are recovered from the number they spell.
proof fn lemma_u8_digit_join(a: u8, b: u8)
    requires
        a <= 9,
        b <= 9,
    ensures
        (10 * a + b) as int / 10 == a as int,
        (10 * a + b) as int % 10 == b as int,
{
    assert(a <= 9 && b <= 9 ==> (10 * a + b) / 10 == a && (10 * a + b) % 10 == b) by (bit_vector);
}

/// Rendering a valid date and reading the rendering back gives the date.
pub proof fn lemma_format_parse(d: Date)
    requires
        valid_date(d),
    ensures
        parse_spec(format_spec(d)) == Some(d),
{
    let s = format_spec(d);
    let y = d.year as int;
    let m = d.month as int;
    let dd = d.day as int;
    lemma_u16_digit_split(d.year);
    lemma_u8_digit_split(d.month);
    lemma_u8_digit_split(d.day);
    lemma_char_digit_round(y / 1000);
    lemma_char_digit_round((y / 100) % 10);
    lemma_char_digit_round((y / 10) % 10);
    lemma_char_digit_round(y % 10);
    lemma_char_digit_round(m / 10);
    lemma_char_digit_round(m % 10);
    lemma_char_digit_round(dd / 10);
    lemma_char_digit_round(dd % 10);
    assert(digit_of(s[0]) * 1000 + digit_of(s[1]) * 100 + digit_of(s[2]) * 10 + digit_of(s[3])
        == y);
    assert(digit_of(s[5]) * 10 + digit_of(s[6]) == m);
    assert(digit_of(s[8]) * 10 + digit_of(s[9]) == dd);
}

/// A digit character is recovered from its value.
proof fn lemma_digit_round(c: char)
    requires
        is_digit_char(c),
    ensures
        digit_char(digit_of(c)) == c,
        0 <= digit_of(c) <= 9,
{
    reveal(digit_of);
    reveal(digit_char);
}

/// A string that reads as a date is exactly that date's rendering: the
/// accepted shape is canonical.
pub proof fn lemma_parse_canonical(s: Seq<char>, d: Date)
    requires
        parse_spec(s) == Some(d),
    ensures
        format_spec(d) == s,
        valid_date(d),
{
    lemma_digit_round(s[0]);
    lemma_digit_round(s[1]);
    lemma_digit_round(s[2]);
    lemma_digit_round(s[3]);
    lemma_digit_round(s[5]);
    lemma_digit_round(s[6]);
    lemma_digit_round(s[8]);
    lemma_digit_round(s[9]);
    lemma_u16_digit_join(
        digit_of(s[0]) as u16,
        digit_of(s[1]) as u16,
        digit_of(s[2]) as u16,
        digit_of(s[3]) as u16,
    );
    lemma_u8_digit_join(digit_of(s[5]) as u8, digit_of(s[6]) as u8);
    lemma_u8_digit_join(digit_of(s[8]) as u8, digit_of(s[9]) as u8);
    let y = d.year as int;
    assert(y == digit_of(s[0]) * 1000 + digit_of(s[1]) * 100 + digit_of(s[2]) * 10 + digit_of(
        s[3],
    ));
    assert(y / 1000 == digit_of(s[0]));
    assert((y / 100) % 10 == digit_of(s[1]));
    assert((y / 10) % 10 == digit_of(s[2]));
    assert(y % 10 == digit_of(s[3]));
    assert(d.month as int / 10 == digit_of(s[5]));
    assert(d.month as int % 10 == digit_of(s[6]));
    assert(d.day as int / 10 == digit_of(s[8]));
    assert(d.day as int % 10 == digit_of(s[9]));
    assert(format_spec(d) =~= s);
}

/// The result of shifting the date that `s` spells by `n` days: `None`
/// where `s` reads as no date or the shifted date falls outside years
/// 0..=9999, else the shifted date rendered as `YYYY-MM-DD`.
pub open spec fn shift_spec(s: Seq<char>, n: int) -> Option<Seq<char>> {
    match parse_spec(s) {
        Option::None => Option::None,
        Option::Some(d) => {
            if index_in_range(date_index(d) + n) {
                Option::Some(format_spec(date_from_index(date_index(d) + n)))
            } else {
                Option::None
            }
        },
    }
}

/// Shifting a date string by `n` days and shifting the result by `-n`
/// days gives back the original string.
pub proof fn lemma_shift_round_trip(s: Seq<char>, n: int)
    requires
        shift_spec(s, n) is Some,
    ensures
        shift_spec(shift_spec(s, n).unwrap(), -n) == Some(s),
{
    let d0 = parse_spec(s).unwrap();
    lemma_parse_canonical(s, d0);
    let i0 = date_index(d0);
    lemma_index_bounds(d0);
    lemma_index_surjective(i0 + n);
    let d1 = date_from_index(i0 + n);
    assert(valid_date(d1) && date_index(d1) == i0 + n);
    lemma_format_parse(d1);
    lemma_index_surjective(i0);
    let d2 = date_from_index(date_index(d1) + (-n));
    assert(valid_date(d2) && date_index(d2) == i0);
    lemma_index_injective(d2, d0);
}

/// Parses `date` as `YYYY-MM-DD`, shifts it by `direction` days, and
/// renders the result; `DateError::Parse` where `date` is no such string,
/// `DateError::OutOfRange` where the result leaves the years 0..=9999.
pub fn change_current_date(date: &str, direction: i64) -> (r: Result<String, DateError>)
    ensures
        r is Ok <==> shift_spec(date@, direction as int) is Some,
        r is Ok ==> r.unwrap()@ == shift_spec(date@, direction as int).unwrap(),
        r is Err ==> r.unwrap_err() == (if parse_spec(date@) is None {
            DateError::Parse
        } else {
            DateError::OutOfRange
        }),
{
    let d0 = match Date::parse(date) {
        Some(d) => d,
        None => { return Err(DateError::Parse); },
    };
    let d1 = match d0.add_days(direction) {
        Ok(d) => d,
        Err(_) => { return Err(DateError::OutOfRange); },
    };
    proof {
        lemma_index_surjective(date_index(d0) + direction as int);
        lemma_index_injective(d1, date_from_index(date_index(d0) + direction as int));
    }
    Ok(d1.format())
}

} // verus!
