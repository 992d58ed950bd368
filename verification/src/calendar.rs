//! Calendar dates as plain numbers, checked and stepped through by the `time` crate.

use vstd::prelude::*;

verus! {

/// The earliest year that a date of `time` can hold (without its `large-dates` feature).
pub const MIN_YEAR: i32 = -9999;

/// The latest year that a date of `time` can hold (without its `large-dates` feature).
pub const MAX_YEAR: i32 = 9999;

/// A year, month and day, as given by a caller; it need not name a real date.
#[derive(Clone, Copy, Debug, PartialEq, Eq, Structural)]
pub struct Date {
    pub year: i32,
    pub month: u8,
    pub day: u8,
}

/// Leap years of the proleptic Gregorian calendar.
pub open spec fn is_leap_year(year: int) -> bool {
    (year % 4 == 0 && year % 100 != 0) || year % 400 == 0
}

/// The number of days of a month (numbered 1 to 12) in a year.
pub open spec fn days_in_month(year: int, month: int) -> int {
    if month == 2 {
        if is_leap_year(year) { 29 } else { 28 }
    } else if month == 4 || month == 6 || month == 9 || month == 11 {
        30
    } else {
        31
    }
}

/// Whether year, month and day name a day that `time` can represent.
pub open spec fn is_valid_date(year: int, month: int, day: int) -> bool {
    &&& MIN_YEAR <= year <= MAX_YEAR
    &&& 1 <= month <= 12
    &&& 1 <= day <= days_in_month(year, month)
}

impl Date {
    /// This date names a real day in the range of `time`.
    pub open spec fn valid(self) -> bool {
        is_valid_date(self.year as int, self.month as int, self.day as int)
    }

    /// The date with the given year, month and day.
    pub fn new(year: i32, month: u8, day: u8) -> (r: Date)
        ensures
            r == (Date { year, month, day }),
    {
        Date { year, month, day }
    }

    /// Whether this date names a real day, as `time::Date::from_calendar_date` decides it.
    pub fn is_real(&self) -> (r: bool)
        ensures
            r == self.valid(),
    {
        calendar_date_exists(self.year, self.month, self.day)
    }
}

/// Asks `time::Date::from_calendar_date` whether the year, month and day form a date; the month
/// number is first turned into a `time::Month` by `time::Month::try_from`, which refuses numbers
/// outside 1 to 12. Claimed: the answer is yes exactly for the days of the proleptic Gregorian
/// calendar in the years -9999 to 9999.
#[verifier::external_body]
fn calendar_date_exists(year: i32, month: u8, day: u8) -> (r: bool)
    ensures
        r == is_valid_date(year as int, month as int, day as int),
{
    match time::Month::try_from(month) {
        Ok(m) => time::Date::from_calendar_date(year, m, day).is_ok(),
        Err(_) => false,
    }
}


/// `a` comes strictly before `b` in the calendar (year, then month, then day).
pub open spec fn date_before(a: Date, b: Date) -> bool {
    ||| a.year < b.year
    ||| a.year == b.year && a.month < b.month
    ||| a.year == b.year && a.month == b.month && a.day < b.day
}

/// `a` comes before `b` or is the same date.
pub open spec fn date_le(a: Date, b: Date) -> bool {
    date_before(a, b) || a == b
}

/// The last day that `time` can represent.
pub open spec fn last_date() -> Date {
    Date { year: MAX_YEAR, month: 12, day: 31 }
}

/// The day after a valid date, or `None` after the last representable day.
pub open spec fn spec_next_day(d: Date) -> Option<Date> {
    if (d.day as int) < days_in_month(d.year as int, d.month as int) {
        Some(Date { year: d.year, month: d.month, day: (d.day + 1) as u8 })
    } else if d.month < 12 {
        Some(Date { year: d.year, month: (d.month + 1) as u8, day: 1 })
    } else if d.year < MAX_YEAR {
        Some(Date { year: (d.year + 1) as i32, month: 1, day: 1 })
    } else {
        None
    }
}

/// Whether `a` comes before `b` or is the same date, as the order of `time::Date` has it.
pub fn date_precedes_or_equals(a: &Date, b: &Date) -> (r: bool)
    ensures
        r == date_le(*a, *b),
{
    if a.year != b.year {
        a.year < b.year
    } else if a.month != b.month {
        a.month < b.month
    } else {
        a.day <= b.day
    }
}

/// Asks `time::Date::next_day` for the day after a valid date, which is first built by
/// `time::Month::try_from` and `time::Date::from_calendar_date` and afterwards read back with
/// `year`, `month` and `day`. Claimed: the following calendar day, with `None` after
/// 9999-12-31, the last day that `time` represents.
#[verifier::external_body]
fn following_day(d: Date) -> (r: Option<Date>)
    requires
        d.valid(),
    ensures
        r == spec_next_day(d),
{
    let month = time::Month::try_from(d.month).unwrap();
    let t = time::Date::from_calendar_date(d.year, month, d.day).unwrap();
    match t.next_day() {
        Some(n) => Some(Date { year: n.year(), month: u8::from(n.month()), day: n.day() }),
        None => None,
    }
}

/// Asks `time::UtcDateTime::now` for the current day in UTC, read back with `year`, `month` and
/// `day`. It depends on the clock: claimed is only that it is a valid date.
#[verifier::external_body]
pub(crate) fn today_utc() -> (r: Date)
    ensures
        r.valid(),
{
    let t = time::UtcDateTime::now().date();
    Date { year: t.year(), month: u8::from(t.month()), day: t.day() }
}

/// The character of a decimal digit.
pub open spec fn digit_char(n: int) -> char {
    (48 + n) as char
}

/// A number below 100 as two decimal digits.
pub open spec fn two_digits(n: int) -> Seq<char> {
    seq![digit_char(n / 10), digit_char(n % 10)]
}

/// A number below 10000 as four decimal digits.
pub open spec fn four_digits(n: int) -> Seq<char> {
    two_digits(n / 100) + two_digits(n % 100)
}

/// A valid date as `time` writes it: the year in at least four digits (with `-` before it when
/// negative), the month and the day in two, joined by `-`; for example `1999-01-04`.
pub open spec fn date_text(d: Date) -> Seq<char> {
    let year = d.year as int;
    let sign: Seq<char> = if year < 0 { seq!['-'] } else { seq![] };
    let magnitude = if year < 0 { -year } else { year };
    sign + four_digits(magnitude) + seq!['-'] + two_digits(d.month as int) + seq!['-'] + two_digits(
        d.day as int,
    )
}

/// Writes a valid date with the `Display` impl of `time::Date` (through `to_string`), after
/// building it with `time::Month::try_from` and `time::Date::from_calendar_date`. Claimed: the
/// text is `date_text(d)`, the form that `time` writes without its `large-dates` feature.
#[verifier::external_body]
pub(crate) fn date_to_text(d: Date) -> (r: String)
    requires
        d.valid(),
    ensures
        r@ == date_text(d),
{
    let month = time::Month::try_from(d.month).unwrap();
    time::Date::from_calendar_date(d.year, month, d.day).unwrap().to_string()
}


/// The two ends of a span of days, as a caller gives them.
#[derive(Clone, Copy, Debug, PartialEq, Eq, Structural)]
pub struct Dates {
    pub from: Date,
    pub to: Date,
}

impl Dates {
    /// The range of days between the two ends, or `None` when either end is not a real day.
    pub fn range(&self) -> (r: Option<DateRange>)
        ensures
            r is Some <==> self.from.valid() && self.to.valid(),
            r matches Some(range) ==> range.start_day() == self.from && range.end_day()
                == self.to,
    {
        if self.from.is_real() && self.to.is_real() {
            Some(date_range(self.from, self.to))
        } else {
            None
        }
    }
}

/// A walk through the calendar: while the current day is not after the end, each step moves
/// the current day to the next one and yields it. The first day yielded is therefore the day
/// after the start, and the last one the day after the end.
pub struct DateRange {
    start: Date,
    end: Date,
}

/// Starts a walk from `start` towards `end`.
pub fn date_range(start: Date, end: Date) -> (r: DateRange)
    requires
        start.valid(),
        end.valid(),
    ensures
        r.start_day() == start,
        r.end_day() == end,
{
    DateRange { start, end }
}

/// A bound on the number of steps left in a walk from `s` to `e`.
pub open spec fn range_measure(s: Date, e: Date) -> int {
    if date_le(s, e) {
        (e.year - s.year) * 416 + (12 - s.month) * 32 + (31 - s.day) + 1
    } else {
        0
    }
}

/// The days that a walk from `s` to `e` yields, in order.
pub open spec fn range_days(s: Date, e: Date) -> Seq<Date>
    decreases range_measure(s, e),
{
    if s.valid() && date_le(s, e) {
        match spec_next_day(s) {
            Some(n) => {
                proof {
                    lemma_next_day_valid(s);
                    lemma_range_measure_decreases(s, e);
                }
                seq![n] + range_days(n, e)
            },
            None => seq![],
        }
    } else {
        seq![]
    }
}

/// The day after a valid date is valid and comes after it.
pub proof fn lemma_next_day_valid(d: Date)
    requires
        d.valid(),
    ensures
        spec_next_day(d) matches Some(n) ==> n.valid() && date_before(d, n),
        spec_next_day(d) is None <==> d == last_date(),
{
}

/// Each step of a walk that goes on shrinks the bound on the steps left.
pub proof fn lemma_range_measure_decreases(s: Date, e: Date)
    requires
        s.valid(),
        date_le(s, e),
        spec_next_day(s) is Some,
    ensures
        0 <= range_measure(spec_next_day(s).unwrap(), e) < range_measure(s, e),
{
    lemma_next_day_valid(s);
}

/// The day after a valid date is the first valid date after it: every valid date later than
/// `d` is that day or a later one (so in particular such a day exists).
pub proof fn lemma_next_day_is_successor(d: Date, x: Date)
    requires
        d.valid(),
        x.valid(),
        date_before(d, x),
    ensures
        spec_next_day(d) matches Some(n) && date_le(n, x),
{
}

/// A walk yields consecutive days: the first is the day after the start, each further one is
/// the day after the one before, every day but the last is not after the end, and the walk stops
/// at the first day past the end, or at the last day that `time` represents.
pub proof fn lemma_range_days_consecutive(s: Date, e: Date)
    requires
        s.valid(),
    ensures
        ({
            let v = range_days(s, e);
            &&& forall|i: int| 0 <= i < v.len() ==> (#[trigger] v[i]).valid()
            &&& v.len() > 0 ==> date_le(s, e) && spec_next_day(s) == Some(v[0])
            &&& forall|i: int|
                0 <= i < v.len() - 1 ==> date_le(#[trigger] v[i], e) && spec_next_day(v[i])
                    == Some(v[i + 1])
            &&& v.len() == 0 ==> !date_le(s, e) || spec_next_day(s) is None
            &&& v.len() > 0 ==> !date_le(v.last(), e) || spec_next_day(v.last()) is None
        }),
    decreases range_measure(s, e),
{
    if date_le(s, e) {
        if let Some(n) = spec_next_day(s) {
            lemma_next_day_valid(s);
            lemma_range_measure_decreases(s, e);
            lemma_range_days_consecutive(n, e);
            let w = range_days(n, e);
            let v = range_days(s, e);
            assert(v == seq![n] + w);
            assert forall|i: int| 0 <= i < v.len() implies (#[trigger] v[i]).valid() by {
                if i > 0 {
                    assert(v[i] == w[i - 1]);
                }
            }
            assert forall|i: int| 0 <= i < v.len() - 1 implies date_le(#[trigger] v[i], e)
                && spec_next_day(v[i]) == Some(v[i + 1]) by {
                if i > 0 {
                    assert(v[i] == w[i - 1]);
                    assert(v[i + 1] == w[i]);
                }
            }
        }
    }
}

/// The days in the years before `year`, counted from the first day of year 1 (negative for
/// earlier years), in the proleptic Gregorian calendar.
pub open spec fn days_before_year(year: int) -> int {
    let p = year - 1;
    365 * p + p / 4 - p / 100 + p / 400
}

/// The days in the months of `year` before `month`.
pub open spec fn days_before_month(year: int, month: int) -> int {
    let common: int = if month <= 1 {
        0
    } else if month == 2 {
        31
    } else if month == 3 {
        59
    } else if month == 4 {
        90
    } else if month == 5 {
        120
    } else if month == 6 {
        151
    } else if month == 7 {
        181
    } else if month == 8 {
        212
    } else if month == 9 {
        243
    } else if month == 10 {
        273
    } else if month == 11 {
        304
    } else {
        334
    };
    if is_leap_year(year) && month > 2 {
        common + 1
    } else {
        common
    }
}

/// The number of a day: how many days it lies after 31 December of year 0.
pub open spec fn day_number(d: Date) -> int {
    days_before_year(d.year as int) + days_before_month(d.year as int, d.month as int) + d.day
}

proof fn lemma_division_step(y: int)
    ensures
        y / 4 - (y - 1) / 4 == (if y % 4 == 0 { 1int } else { 0 }),
        y / 100 - (y - 1) / 100 == (if y % 100 == 0 { 1int } else { 0 }),
        y / 400 - (y - 1) / 400 == (if y % 400 == 0 { 1int } else { 0 }),
{
}

/// A year has 365 days, and one more when it is a leap year.
proof fn lemma_days_of_year(year: int)
    ensures
        days_before_year(year + 1) - days_before_year(year) == (if is_leap_year(year) {
            366int
        } else {
            365
        }),
{
    lemma_division_step(year);
}

/// Later years begin later.
proof fn lemma_days_before_year_grows(y1: int, y2: int)
    requires
        y1 <= y2,
    ensures
        days_before_year(y1) <= days_before_year(y2),
    decreases y2 - y1,
{
    if y1 < y2 {
        lemma_days_of_year(y2 - 1);
        lemma_days_before_year_grows(y1, y2 - 1);
    }
}

/// Every day of a valid date's year lies between the start of that year and the next.
proof fn lemma_day_number_within_year(d: Date)
    requires
        d.valid(),
    ensures
        days_before_year(d.year as int) < day_number(d) <= days_before_year(d.year + 1),
{
    lemma_days_of_year(d.year as int);
}

/// A day of an earlier month of the same year has a smaller day number.
proof fn lemma_earlier_month_smaller(a: Date, b: Date)
    requires
        a.valid(),
        b.valid(),
        a.year == b.year,
        a.month < b.month,
    ensures
        day_number(a) < day_number(b),
{
}

/// A date comes before another exactly when its day number is smaller: the calendar order of
/// dates is the order of the days they name, so for instance every day of an earlier year comes
/// first, however many years lie between.
pub proof fn lemma_date_order_is_day_order(a: Date, b: Date)
    requires
        a.valid(),
        b.valid(),
    ensures
        date_before(a, b) <==> day_number(a) < day_number(b),
        date_le(a, b) <==> day_number(a) <= day_number(b),
{
    lemma_day_number_within_year(a);
    lemma_day_number_within_year(b);
    if a.year < b.year {
        lemma_days_before_year_grows(a.year + 1, b.year as int);
    } else if b.year < a.year {
        lemma_days_before_year_grows(b.year + 1, a.year as int);
    } else if a.month < b.month {
        lemma_earlier_month_smaller(a, b);
    } else if b.month < a.month {
        lemma_earlier_month_smaller(b, a);
    }
}

/// The day after a valid date has the next day number.
pub proof fn lemma_next_day_number(d: Date)
    requires
        d.valid(),
        spec_next_day(d) is Some,
    ensures
        day_number(spec_next_day(d).unwrap()) == day_number(d) + 1,
{
    lemma_days_of_year(d.year as int);
}

/// A walk from `s` to an end `e` that is not before `s`, and is not the last day of `time`,
/// yields the days after `s` up to the day after `e`, one day apart, which are `e - s + 1`
/// days; after them the walk stands past `e`, so every further step yields nothing.
pub proof fn lemma_range_days_span(s: Date, e: Date)
    requires
        s.valid(),
        e.valid(),
        date_le(s, e),
        e != last_date(),
    ensures
        ({
            let v = range_days(s, e);
            &&& v.len() == day_number(e) - day_number(s) + 1
            &&& forall|i: int|
                0 <= i < v.len() ==> (#[trigger] v[i]).valid() && day_number(v[i]) == day_number(s)
                    + i + 1
            &&& v[0] == spec_next_day(s).unwrap()
            &&& v.last() == spec_next_day(e).unwrap()
            &&& !date_le(v.last(), e)
        }),
    decreases range_measure(s, e),
{
    lemma_next_day_valid(s);
    lemma_next_day_valid(e);
    let n = spec_next_day(s).unwrap();
    lemma_next_day_number(s);
    let v = range_days(s, e);
    assert(v == seq![n] + range_days(n, e));
    if date_le(n, e) {
        lemma_range_measure_decreases(s, e);
        lemma_range_days_span(n, e);
        let w = range_days(n, e);
        assert forall|i: int| 0 <= i < v.len() implies (#[trigger] v[i]).valid() && day_number(v[i])
            == day_number(s) + i + 1 by {
            if i > 0 {
                assert(v[i] == w[i - 1]);
            }
        }
        assert(v.last() == w.last());
    } else {
        if s != e {
            lemma_next_day_is_successor(s, e);
        }
        assert(s == e);
        assert(range_days(n, e) =~= Seq::<Date>::empty());
        assert(v =~= seq![n]);
    }
}

impl DateRange {
    #[verifier::type_invariant]
    spec fn ends_are_real(self) -> bool {
        self.start.valid() && self.end.valid()
    }

    /// The current day of the walk.
    pub closed spec fn start_day(self) -> Date {
        self.start
    }

    /// The day after which the walk stops.
    pub closed spec fn end_day(self) -> Date {
        self.end
    }

    /// One step: the day after the current one, if the current day is not after the end (and is
    /// not the last day that `time` represents); the walk then stands on the day yielded.
    pub fn next(&mut self) -> (r: Option<Date>)
        ensures
            r == (if date_le(old(self).start_day(), old(self).end_day()) {
                spec_next_day(old(self).start_day())
            } else {
                None
            }),
            final(self).start_day() == (match r {
                Some(d) => d,
                None => old(self).start_day(),
            }),
            final(self).end_day() == old(self).end_day(),
            final(self).start_day().valid(),
            final(self).end_day().valid(),
    {
        proof {
            use_type_invariant(&*self);
        }
        if date_precedes_or_equals(&self.start, &self.end) {
            match following_day(self.start) {
                Some(next) => {
                    proof {
                        lemma_next_day_valid(self.start);
                    }
                    self.start = next;
                    Some(next)
                },
                None => None,
            }
        } else {
            None
        }
    }

    /// All the days that the walk yields, in order.
    pub fn days(self) -> (v: Vec<Date>)
        ensures
            v@ == range_days(self.start_day(), self.end_day()),
    {
        proof {
            use_type_invariant(&self);
        }
        let ghost s0 = self.start_day();
        let ghost e = self.end_day();
        let mut range = DateRange { start: self.start, end: self.end };
        let mut v: Vec<Date> = Vec::new();
        loop
            invariant
                s0 == self.start_day(),
                e == self.end_day(),
                range.end_day() == e,
                range.start_day().valid(),
                e.valid(),
                v@ + range_days(range.start_day(), e) == range_days(s0, e),
            decreases range_measure(range.start_day(), e),
        {
            let ghost before = range.start_day();
            match range.next() {
                Some(d) => {
                    proof {
                        lemma_range_measure_decreases(before, e);
                        assert(range_days(before, e) == seq![d] + range_days(d, e));
                        assert(v@.push(d) + range_days(d, e) =~= v@ + range_days(before, e));
                    }
                    v.push(d);
                },
                None => {
                    proof {
                        assert(range_days(before, e) =~= Seq::<Date>::empty());
                        assert(v@ + range_days(before, e) =~= v@);
                    }
                    return v;
                },
            }
        }
    }
}

} // verus!
