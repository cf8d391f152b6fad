//! Days of the Gregorian calendar, and how they are written.
use crate::text::{decimal, digit, opt, padded, precedes, to_padded};
use vstd::prelude::*;

verus! {

/// A day of the proleptic Gregorian calendar.
#[derive(Clone, Copy, Debug, PartialEq, Eq, Structural)]
pub struct Date {
    pub year: i64,
    pub month: u32,
    pub day: u32,
}

/// Whether a year has a 29th of February.
pub open spec fn leap(year: int) -> bool {
    year % 4 == 0 && (year % 100 != 0 || year % 400 == 0)
}

/// The number of days in a month.
pub open spec fn month_days(year: int, month: int) -> int {
    if month == 2 {
        if leap(year) {
            29
        } else {
            28
        }
    } else if month == 4 || month == 6 || month == 9 || month == 11 {
        30
    } else {
        31
    }
}

/// The days from the start of a year to the start of one of its months.
pub open spec fn before_month(year: int, month: int) -> int
    decreases month,
{
    if month <= 1 {
        0
    } else {
        before_month(year, month - 1) + month_days(year, month - 1)
    }
}

/// The days from the start of 1970 to the start of a year.
pub open spec fn before_year(year: int) -> int {
    let past = year - 1;
    365 * past + past / 4 - past / 100 + past / 400 - 719162
}

impl Date {
    pub open spec fn is_valid(self) -> bool {
        &&& 1 <= self.month <= 12
        &&& 1 <= self.day <= month_days(self.year as int, self.month as int)
    }

    /// The days from the first of January 1970 to this one.
    pub open spec fn number(self) -> int {
        before_year(self.year as int) + before_month(self.year as int, self.month as int) + self.day
            - 1
    }
}

/// The day that is so many days after the first of January 1970.
pub open spec fn date_on(number: int) -> Date {
    choose|d: Date| d.is_valid() && d.number() == number
}

/// A day as year, month and day, of at least four, two and two characters.
pub open spec fn iso(d: Date) -> Seq<char> {
    padded(d.year as int, 4) + "-"@ + padded(d.month as int, 2) + "-"@ + padded(d.day as int, 2)
}

/// A year has 365 days, and a leap year one more; 1970 starts on day zero.
pub proof fn a_year_has_its_days(year: int)
    ensures
        before_year(1970) == 0,
        before_year(year + 1) - before_year(year) == if leap(year) {
            366int
        } else {
            365
        },
        before_month(year, 13) == before_year(year + 1) - before_year(year),
{
    reveal_with_fuel(before_month, 14);
    assert(before_year(year + 1) - before_year(year) == if leap(year) {
        366int
    } else {
        365
    });
}

proof fn lemma_years_ascend(a: int, b: int)
    requires
        a <= b,
    ensures
        before_year(a) <= before_year(b),
    decreases b - a,
{
    if a < b {
        a_year_has_its_days(b - 1);
        lemma_years_ascend(a, b - 1);
    }
}

proof fn lemma_months_ascend(year: int, a: int, b: int)
    requires
        1 <= a <= b,
    ensures
        0 <= before_month(year, a) <= before_month(year, b),
    decreases b,
{
    if 1 < b {
        if a < b {
            lemma_months_ascend(year, a, b - 1);
        } else {
            lemma_months_ascend(year, a - 1, b - 1);
        }
    }
}

/// No two days of the calendar have the same number.
pub proof fn a_number_has_one_date(a: Date, b: Date)
    requires
        a.is_valid(),
        b.is_valid(),
        a.number() == b.number(),
    ensures
        a == b,
{
    if a.year != b.year || a.month != b.month {
        let (p, q) = if a.year < b.year || (a.year == b.year && a.month < b.month) {
            (a, b)
        } else {
            (b, a)
        };
        lemma_months_ascend(p.year as int, p.month + 1, 13);
        lemma_months_ascend(q.year as int, 1, q.month as int);
        if p.year < q.year {
            a_year_has_its_days(p.year as int);
            lemma_years_ascend(p.year + 1, q.year as int);
        } else {
            lemma_months_ascend(p.year as int, p.month + 1, q.month as int);
        }
    }
}

proof fn lemma_year_of_era(doe: u32)
    requires
        doe < 146097,
    ensures
        ({
            let yoe = ((doe - doe / 1460 + doe / 36524 - doe / 146096) / 365) as u32;
            let first = (365 * yoe + yoe / 4 - yoe / 100) as u32;
            &&& 0 <= doe - doe / 1460 + doe / 36524 - doe / 146096
            &&& yoe < 400
            &&& first <= doe
            &&& doe - first <= 365
            &&& doe - first == 365 ==> (yoe + 1) % 4 == 0 && ((yoe + 1) % 100 != 0 || yoe == 399)
        }),
{
}

proof fn lemma_march_years(year: int, era: int, yoe: int)
    requires
        0 <= yoe < 400,
        year == yoe + era * 400,
    ensures
        before_year(year + 1) + 719162 == 146097 * era + 365 * yoe + yoe / 4 - yoe / 100,
        leap(year + 1) <==> ((yoe + 1) % 4 == 0 && ((yoe + 1) % 100 != 0 || yoe == 399)),
{
    assert(year / 4 == yoe / 4 + era * 100);
    assert(year / 100 == yoe / 100 + era * 4);
    assert(year / 400 == era);
    assert((year + 1) % 4 == (yoe + 1) % 4);
    assert((year + 1) % 100 == (yoe + 1) % 100);
    assert((year + 1) % 400 == 0 <==> yoe == 399);
}

proof fn lemma_march_months(year: int)
    ensures
        before_month(year, 1) == 0,
        before_month(year, 2) == 31,
        before_month(year, 3) == 59 + (if leap(year) {
            1int
        } else {
            0
        }),
        forall|m: int|
            3 <= m <= 12 ==> #[trigger] before_month(year, m) == before_month(year, 3) + (153 * (m
                - 3) + 2) / 5,
{
    reveal_with_fuel(before_month, 13);
}

/// The day that is so many days after the first of January 1970. The years are counted from March
/// here, so that a leap day is the last day of its year, in eras of four hundred years.
pub fn civil(days: i64) -> (r: Date)
    requires
        days <= i64::MAX - 719468,
    ensures
        r.is_valid(),
        r.number() == days,
        r == date_on(days as int),
{
    let z = days + 719468;
    let era: i64 = if z >= 0 {
        z / 146097
    } else {
        -((146096 - z) / 146097)
    };
    let doe = (z - era * 146097) as u32;
    proof {
        lemma_year_of_era(doe);
    }
    let yoe = (doe - doe / 1460 + doe / 36524 - doe / 146096) / 365;
    let y = yoe as i64 + era * 400;
    let doy = doe - (365 * yoe + yoe / 4 - yoe / 100);
    let mp = (5 * doy + 2) / 153;
    let d = doy - (153 * mp + 2) / 5 + 1;
    let m: u32 = if mp < 10 {
        mp + 3
    } else {
        mp - 9
    };
    let year: i64 = if m <= 2 {
        y + 1
    } else {
        y
    };
    let r = Date { year, month: m, day: d };
    proof {
        lemma_march_years(y as int, era as int, yoe as int);
        lemma_march_months(year as int);
        a_year_has_its_days(y as int);
        assert(r.is_valid());
        assert(r.number() == days);
        let other = date_on(days as int);
        a_number_has_one_date(r, other);
    }
    r
}

/// The day that is so many days after the first of January 1970, in writing.
pub fn ymd(days: i64) -> (r: String)
    requires
        days <= i64::MAX - 719468,
    ensures
        r@ == iso(date_on(days as int)),
{
    let date = civil(days);
    let mut s = to_padded(date.year, 4);
    s.append("-");
    s.append(to_padded(date.month as i64, 2).as_str());
    s.append("-");
    s.append(to_padded(date.day as i64, 2).as_str());
    s
}

/// Whether two days in writing are the search window of a run.
pub open spec fn is_window(
    r: (Seq<char>, Seq<char>),
    start: Option<Seq<char>>,
    end: Option<Seq<char>>,
    today: int,
) -> bool {
    &&& r.0 == match start {
        Some(s) => s,
        None => iso(date_on(today - 183)),
    }
    &&& r.1 == match end {
        Some(e) => e,
        None => iso(date_on(today)),
    }
}

/// The search window of a run: what is asked for, and otherwise from half a year ago to today.
pub fn window(start: &Option<String>, end: &Option<String>, today: i64) -> (r: (String, String))
    requires
        0 <= today <= i64::MAX - 719468,
    ensures
        is_window((r.0@, r.1@), opt(*start), opt(*end), today as int),
        r.0@ == match opt(*start) {
            Some(s) => s,
            None => iso(date_on(today - 183)),
        },
        r.1@ == match opt(*end) {
            Some(e) => e,
            None => iso(date_on(today as int)),
        },
{
    let from = match start {
        Some(s) => s.clone(),
        None => ymd(today - 183),
    };
    let to = match end {
        Some(e) => e.clone(),
        None => ymd(today),
    };
    (from, to)
}

/// Whether a day is one that a shifted date can fall on.
pub open spec fn in_calendar(number: int) -> bool {
    before_year(-262143) <= number < before_year(262143)
}

/// A day in writing, with a sign before a year that does not have four digits.
pub open spec fn long_iso(d: Date) -> Seq<char> {
    (if 0 <= d.year <= 9999 {
        padded(d.year as int, 4)
    } else if d.year > 9999 {
        "+"@ + decimal(d.year as nat)
    } else {
        padded(d.year as int, 5)
    }) + "-"@ + padded(d.month as int, 2) + "-"@ + padded(d.day as int, 2)
}

/// What `chrono::NaiveDate::parse_from_str` makes of a text under `%Y-%m-%d`: the number of the
/// day, the first of January of year 1 being day 1, or what it finds wrong.
pub uninterp spec fn date_read(text: Seq<char>) -> Result<int, Seq<char>>;

/// A reply of [`read_date`], as the number or the complaint that it carries.
pub open spec fn reading(r: Result<i32, String>) -> Result<int, Seq<char>> {
    match r {
        Ok(n) => Ok(n as int),
        Err(e) => Err(e@),
    }
}

/// Every day of the calendar is read from its own writing.
pub open spec fn reads_back(r: Result<i32, String>, text: Seq<char>) -> bool {
    forall|n: int|
        in_calendar(n) && text == long_iso(#[trigger] date_on(n)) ==> r is Ok && r->Ok_0 == n
            + 719163
}

/// `chrono::NaiveDate::parse_from_str` under `%Y-%m-%d`, with `num_days_from_ce` of the day that
/// it reads and `to_string` of its error: what it makes of a text depends on the text alone, a day
/// is one of the calendar's, and every day of the calendar is read back from its own writing.
#[verifier::external_body]
fn read_date(text: &str) -> (r: Result<i32, String>)
    ensures
        reading(r) == date_read(text@),
        r is Ok ==> in_calendar(r->Ok_0 - 719163),
        reads_back(r, text@),
{
    match chrono::NaiveDate::parse_from_str(text, "%Y-%m-%d") {
        Ok(day) => Ok(chrono::Datelike::num_days_from_ce(&day)),
        Err(e) => Err(e.to_string()),
    }
}

/// `chrono::NaiveDate::from_num_days_from_ce_opt`, and `format` of the day under `%Y-%m-%d`: there
/// is a day where the number, the first of January of year 1 being day 1, is one of the
/// calendar's, and it is written with a sign before a year that does not have four digits.
#[verifier::external_body]
fn write_date(number: i32) -> (r: Option<String>)
    ensures
        r is Some <==> in_calendar(number - 719163),
        r matches Some(s) ==> s@ == long_iso(date_on(number - 719163)),
{
    chrono::NaiveDate::from_num_days_from_ce_opt(number).map(|day| day.format("%Y-%m-%d").to_string())
}

/// Why a date could not be shifted.
#[derive(Debug)]
pub enum ShiftError {
    /// The date could not be read.
    Unread(String),
    /// The calendar does not reach as far.
    OutOfRange,
}

/// What a run says of a date that it cannot read.
pub open spec fn unread(date: Seq<char>, complaint: Seq<char>) -> Seq<char> {
    "date "@ + date + ": "@ + complaint
}

/// The number of a day in writing.
pub fn day_number(date: &str) -> (r: Result<i64, String>)
    ensures
        match date_read(date@) {
            Ok(n) => r is Ok && r->Ok_0 == n - 719163 && in_calendar(n - 719163),
            Err(e) => r is Err && r->Err_0@ == unread(date@, e),
        },
        forall|n: int|
            in_calendar(n) && date@ == long_iso(#[trigger] date_on(n)) ==> (r matches Ok(m) && m
                == n),
{
    match read_date(date) {
        Ok(n) => Ok(n as i64 - 719163),
        Err(e) => {
            let mut message = "date ".to_owned();
            message.append(date);
            message.append(": ");
            message.append(e.as_str());
            Err(message)
        },
    }
}

/// A day in writing, where the calendar reaches as far.
pub fn day_written(number: i64) -> (r: Option<String>)
    ensures
        r is Some <==> in_calendar(number as int),
        r matches Some(s) ==> s@ == long_iso(date_on(number as int)),
{
    if -100_000_000 < number && number < 100_000_000 {
        write_date((number + 719163) as i32)
    } else {
        None
    }
}

/// The day so many days after another, in writing, where the calendar reaches as far.
pub fn day_later(number: i64, days: i64) -> (r: Option<String>)
    ensures
        r is Some <==> in_calendar(number + days),
        r matches Some(s) ==> s@ == long_iso(date_on(number + days)),
{
    match number.checked_add(days) {
        Some(moved) => day_written(moved),
        None => None,
    }
}

/// The date so many days later, in writing. Of a date that is written as this writes dates, the
/// day is that day's number plus the days.
pub fn shift_date(date: &str, days: i64) -> (r: Result<String, ShiftError>)
    ensures
        match date_read(date@) {
            Ok(n) => if in_calendar(n - 719163 + days) {
                r matches Ok(s) && s@ == long_iso(date_on(n - 719163 + days))
            } else {
                r matches Err(ShiftError::OutOfRange)
            },
            Err(e) => r matches Err(ShiftError::Unread(m)) && m@ == unread(date@, e),
        },
        forall|n: int|
            in_calendar(n) && date@ == long_iso(#[trigger] date_on(n)) ==> if in_calendar(n + days) {
                r matches Ok(s) && s@ == long_iso(date_on(n + days))
            } else {
                r matches Err(ShiftError::OutOfRange)
            },
{
    let number = match day_number(date) {
        Ok(n) => n,
        Err(e) => return Err(ShiftError::Unread(e)),
    };
    match day_later(number, days) {
        Some(s) => Ok(s),
        None => Err(ShiftError::OutOfRange),
    }
}

proof fn lemma_precedes_at(a: Seq<char>, b: Seq<char>, i: int)
    requires
        a.len() == b.len(),
        0 <= i < a.len(),
        a.take(i) == b.take(i),
        a[i] != b[i],
    ensures
        precedes(a, b) == (a[i] < b[i]),
    decreases i,
{
    if i > 0 {
        assert(a[0] == a.take(i)[0] && b[0] == b.take(i)[0]);
        assert(a.drop_first().take(i - 1) =~= a.take(i).drop_first());
        assert(b.drop_first().take(i - 1) =~= b.take(i).drop_first());
        lemma_precedes_at(a.drop_first(), b.drop_first(), i - 1);
    }
}

proof fn lemma_precedes_itself(a: Seq<char>)
    ensures
        !precedes(a, a),
    decreases a.len(),
{
    if a.len() > 0 {
        lemma_precedes_itself(a.drop_first());
    }
}

proof fn lemma_four_digits(n: int)
    requires
        0 <= n <= 9999,
    ensures
        padded(n, 4) == seq![
            digit((n / 1000) as nat),
            digit((n / 100 % 10) as nat),
            digit((n / 10 % 10) as nat),
            digit((n % 10) as nat),
        ],
{
    reveal_with_fuel(decimal, 5);
    assert(n / 10 / 10 == n / 100 && n / 10 / 10 / 10 == n / 1000);
    assert(padded(n, 4) =~= seq![
        digit((n / 1000) as nat),
        digit((n / 100 % 10) as nat),
        digit((n / 10 % 10) as nat),
        digit((n % 10) as nat),
    ]);
}

proof fn lemma_two_digits(n: int)
    requires
        0 <= n <= 99,
    ensures
        padded(n, 2) == seq![digit((n / 10) as nat), digit((n % 10) as nat)],
{
    reveal_with_fuel(decimal, 3);
    assert(padded(n, 2) =~= seq![digit((n / 10) as nat), digit((n % 10) as nat)]);
}

spec fn iso_digits(d: Date) -> Seq<nat> {
    seq![
        (d.year / 1000) as nat,
        (d.year as int / 100 % 10) as nat,
        (d.year as int / 10 % 10) as nat,
        (d.year as int % 10) as nat,
        0,
        (d.month / 10) as nat,
        (d.month % 10) as nat,
        0,
        (d.day / 10) as nat,
        (d.day % 10) as nat,
    ]
}

proof fn lemma_iso_digits(d: Date)
    requires
        d.is_valid(),
        0 <= d.year <= 9999,
    ensures
        iso(d).len() == 10,
        forall|i: int|
            #![trigger iso(d)[i]]
            #![trigger iso_digits(d)[i]]
            0 <= i < 10 ==> iso_digits(d)[i] < 10 && iso(d)[i] == if i == 4 || i == 7 {
                '-'
            } else {
                digit(iso_digits(d)[i])
            },
{
    reveal_strlit("-");
    lemma_four_digits(d.year as int);
    lemma_two_digits(d.month as int);
    lemma_two_digits(d.day as int);
}

proof fn lemma_four_digits_order(x: int, y: int) -> (i: int)
    requires
        0 <= x < y <= 9999,
    ensures
        0 <= i < 4,
        i > 0 ==> x / 1000 == y / 1000,
        i > 1 ==> x / 100 % 10 == y / 100 % 10,
        i > 2 ==> x / 10 % 10 == y / 10 % 10,
        i == 0 ==> x / 1000 < y / 1000,
        i == 1 ==> x / 100 % 10 < y / 100 % 10,
        i == 2 ==> x / 10 % 10 < y / 10 % 10,
        i == 3 ==> x % 10 < y % 10,
{
    if x / 1000 != y / 1000 {
        0
    } else if x / 100 != y / 100 {
        1
    } else if x / 10 != y / 10 {
        2
    } else {
        3
    }
}

proof fn lemma_iso_order_at(a: Date, b: Date, i: int)
    requires
        a.is_valid(),
        b.is_valid(),
        0 <= a.year <= 9999,
        0 <= b.year <= 9999,
        0 <= i < 10,
        i != 4 && i != 7,
        iso_digits(a)[i] < iso_digits(b)[i],
        forall|k: int| 0 <= k < i ==> iso_digits(a)[k] == iso_digits(b)[k],
    ensures
        precedes(iso(a), iso(b)),
        !precedes(iso(b), iso(a)),
        iso(a) != iso(b),
{
    lemma_iso_digits(a);
    lemma_iso_digits(b);
    assert(iso(a).take(i) =~= iso(b).take(i)) by {
        assert forall|k: int| 0 <= k < i implies iso(a)[k] == iso(b)[k] by {
            assert(iso_digits(a)[k] == iso_digits(b)[k]);
        }
    }
    assert(iso(a)[i] == digit(iso_digits(a)[i]) && iso(b)[i] == digit(iso_digits(b)[i]));
    lemma_precedes_at(iso(a), iso(b), i);
    lemma_precedes_at(iso(b), iso(a), i);
}

proof fn lemma_iso_order(a: Date, b: Date)
    requires
        a.is_valid(),
        b.is_valid(),
        0 <= a.year <= 9999,
        0 <= b.year <= 9999,
        a.year < b.year || (a.year == b.year && (a.month < b.month || (a.month == b.month && a.day
            < b.day))),
    ensures
        precedes(iso(a), iso(b)),
        !precedes(iso(b), iso(a)),
        iso(a) != iso(b),
{
    if a.year < b.year {
        lemma_iso_order_by_year(a, b);
    } else if a.month < b.month {
        lemma_iso_order_by_month(a, b);
    } else {
        lemma_iso_order_by_day(a, b);
    }
}

proof fn lemma_iso_order_by_year(a: Date, b: Date)
    requires
        a.is_valid(),
        b.is_valid(),
        0 <= a.year < b.year <= 9999,
    ensures
        precedes(iso(a), iso(b)),
        !precedes(iso(b), iso(a)),
        iso(a) != iso(b),
{
    let i = lemma_four_digits_order(a.year as int, b.year as int);
    let (p, q) = (iso_digits(a), iso_digits(b));
    assert(p[i] < q[i]);
    assert forall|k: int| 0 <= k < i implies p[k] == q[k] by {
        assert(k == 0 || k == 1 || k == 2);
    }
    lemma_iso_order_at(a, b, i);
}

proof fn lemma_iso_order_by_month(a: Date, b: Date)
    requires
        a.is_valid(),
        b.is_valid(),
        0 <= a.year == b.year <= 9999,
        a.month < b.month,
    ensures
        precedes(iso(a), iso(b)),
        !precedes(iso(b), iso(a)),
        iso(a) != iso(b),
{
    if a.month / 10 != b.month / 10 {
        lemma_iso_order_at(a, b, 5);
    } else {
        lemma_iso_order_at(a, b, 6);
    }
}

proof fn lemma_iso_order_by_day(a: Date, b: Date)
    requires
        a.is_valid(),
        b.is_valid(),
        0 <= a.year == b.year <= 9999,
        a.month == b.month,
        a.day < b.day,
    ensures
        precedes(iso(a), iso(b)),
        !precedes(iso(b), iso(a)),
        iso(a) != iso(b),
{
    if a.day / 10 != b.day / 10 {
        lemma_iso_order_at(a, b, 8);
    } else {
        lemma_iso_order_at(a, b, 9);
    }
}

proof fn lemma_numbers_ascend(a: Date, b: Date)
    requires
        a.is_valid(),
        b.is_valid(),
        a.year < b.year || (a.year == b.year && (a.month < b.month || (a.month == b.month && a.day
            < b.day))),
    ensures
        a.number() < b.number(),
{
    lemma_months_ascend(a.year as int, a.month + 1, 13);
    lemma_months_ascend(b.year as int, 1, b.month as int);
    if a.year < b.year {
        a_year_has_its_days(a.year as int);
        lemma_years_ascend(a.year + 1, b.year as int);
    } else if a.month < b.month {
        lemma_months_ascend(a.year as int, a.month + 1, b.month as int);
    }
}

/// Dates of four-digit years compare as texts as the days do, so comparing two windows as texts
/// compares the windows.
pub proof fn dates_sort_as_text(a: Date, b: Date)
    requires
        a.is_valid(),
        b.is_valid(),
        0 <= a.year <= 9999,
        0 <= b.year <= 9999,
    ensures
        precedes(iso(a), iso(b)) <==> a.number() < b.number(),
        iso(a) == iso(b) <==> a.number() == b.number(),
        long_iso(a) == iso(a),
{
    if a.year < b.year || (a.year == b.year && (a.month < b.month || (a.month == b.month && a.day
        < b.day))) {
        lemma_iso_order(a, b);
        lemma_numbers_ascend(a, b);
    } else if a == b {
        lemma_precedes_itself(iso(a));
    } else {
        lemma_iso_order(b, a);
        lemma_numbers_ascend(b, a);
    }
}

/// Either end of a window is what was asked for, whatever the other one is; a window without a
/// start begins 183 days before today, and one without an end reaches to today.
pub proof fn each_end_of_a_window_stands_alone(
    r: (Seq<char>, Seq<char>),
    start: Option<Seq<char>>,
    end: Option<Seq<char>>,
    today: int,
    first: Date,
    last: Date,
)
    requires
        is_window(r, start, end, today),
        first.is_valid() && first.number() == today - 183,
        last.is_valid() && last.number() == today,
    ensures
        start matches Some(s) ==> r.0 == s,
        end matches Some(e) ==> r.1 == e,
        start is None ==> r.0 == iso(first),
        end is None ==> r.1 == iso(last),
{
    a_number_has_one_date(first, date_on(today - 183));
    a_number_has_one_date(last, date_on(today));
}

} // verus!
