use vstd::prelude::*;

use chrono::{Datelike, NaiveDate};

verus! {

/// Day number (January 1 of year 1 is day 1) of the earliest date the
/// calendar supports, January 1 of 262144 BCE.
pub const MIN_DAY_NUMBER: i32 = -95746129;

/// Day number of the latest date the calendar supports, December 31 of
/// 262142 CE.
pub const MAX_DAY_NUMBER: i32 = 95745399;

/// Day number of the date with the given year, month and day in the
/// proleptic Gregorian calendar, or `None` when there is no such date.
pub uninterp spec fn calendar_day_number(year: i32, month: u32, day: u32) -> Option<i32>;

/// Year, month and day of the date with the given day number.
pub uninterp spec fn calendar_year_month_day(day_number: i32) -> (i32, u32, u32);

/// The date with the given day number written as `dd/mm/yyyy`.
pub uninterp spec fn calendar_day_month_year_text(day_number: i32) -> Seq<char>;

/// `chrono::NaiveDate::from_ymd_opt`, read back through
/// `Datelike::num_days_from_ce`. The claim: the result is a function of the
/// three arguments alone, and a date that exists lies between `NaiveDate::MIN`
/// and `NaiveDate::MAX`, whose day numbers are the two bounds above.
#[verifier::external_body]
fn day_number_of_year_month_day(year: i32, month: u32, day: u32) -> (r: Option<i32>)
    ensures
        r == calendar_day_number(year, month, day),
        r matches Some(n) ==> MIN_DAY_NUMBER <= n <= MAX_DAY_NUMBER,
{
    NaiveDate::from_ymd_opt(year, month, day).map(|date| date.num_days_from_ce())
}

/// `chrono::NaiveDate::from_num_days_from_ce_opt` followed by the
/// `Datelike` getters `year`, `month` and `day`. The claim: the result is a
/// function of the day number alone. The conversion returns `Some` for every
/// day number between the bounds, which the `requires` asks for.
#[verifier::external_body]
fn year_month_day_of_day_number(day_number: i32) -> (r: (i32, u32, u32))
    requires
        MIN_DAY_NUMBER <= day_number <= MAX_DAY_NUMBER,
    ensures
        r == calendar_year_month_day(day_number),
{
    let date = NaiveDate::from_num_days_from_ce_opt(day_number).unwrap();
    (date.year(), date.month(), date.day())
}

/// `chrono::NaiveDate::format` with the pattern `%d/%m/%Y`, on the date
/// with the given day number. The claim: the text is a function of the day
/// number alone.
#[verifier::external_body]
fn day_month_year_text_of_day_number(day_number: i32) -> (r: String)
    requires
        MIN_DAY_NUMBER <= day_number <= MAX_DAY_NUMBER,
    ensures
        r@ == calendar_day_month_year_text(day_number),
{
    let date = NaiveDate::from_num_days_from_ce_opt(day_number).unwrap();
    format!("{}", date.format("%d/%m/%Y"))
}

/// A day of the week.
#[derive(Clone, Copy, Debug, Hash, PartialEq, Eq, Structural)]
pub enum Weekday {
    Mon,
    Tue,
    Wed,
    Thu,
    Fri,
    Sat,
    Sun,
}

/// The weekday that lies `index` days after Monday, for `index < 7`.
pub open spec fn weekday_from_monday_index(index: int) -> Weekday {
    if index == 0 {
        Weekday::Mon
    } else if index == 1 {
        Weekday::Tue
    } else if index == 2 {
        Weekday::Wed
    } else if index == 3 {
        Weekday::Thu
    } else if index == 4 {
        Weekday::Fri
    } else if index == 5 {
        Weekday::Sat
    } else {
        Weekday::Sun
    }
}

impl Weekday {
    /// Days from Monday to this weekday: Monday is 0 and Sunday is 6.
    pub open spec fn index(self) -> int {
        match self {
            Weekday::Mon => 0,
            Weekday::Tue => 1,
            Weekday::Wed => 2,
            Weekday::Thu => 3,
            Weekday::Fri => 4,
            Weekday::Sat => 5,
            Weekday::Sun => 6,
        }
    }

    /// Days to go forward from `other` to reach this weekday, in `0..7`.
    pub open spec fn spec_days_since(self, other: Weekday) -> int {
        if self.index() < other.index() {
            7 + self.index() - other.index()
        } else {
            self.index() - other.index()
        }
    }

    pub fn num_days_from_monday(&self) -> (r: u32)
        ensures
            r == self.index(),
    {
        match self {
            Weekday::Mon => 0,
            Weekday::Tue => 1,
            Weekday::Wed => 2,
            Weekday::Thu => 3,
            Weekday::Fri => 4,
            Weekday::Sat => 5,
            Weekday::Sun => 6,
        }
    }

    pub fn from_monday_index(index: u32) -> (r: Weekday)
        requires
            index < 7,
        ensures
            r == weekday_from_monday_index(index as int),
            r.index() == index,
    {
        if index == 0 {
            Weekday::Mon
        } else if index == 1 {
            Weekday::Tue
        } else if index == 2 {
            Weekday::Wed
        } else if index == 3 {
            Weekday::Thu
        } else if index == 4 {
            Weekday::Fri
        } else if index == 5 {
            Weekday::Sat
        } else {
            Weekday::Sun
        }
    }

    /// Days to go forward from `other` to reach this weekday.
    pub fn days_since(&self, other: Weekday) -> (r: u32)
        ensures
            r == self.spec_days_since(other),
            r < 7,
    {
        let lhs = self.num_days_from_monday();
        let rhs = other.num_days_from_monday();
        if lhs < rhs {
            7 + lhs - rhs
        } else {
            lhs - rhs
        }
    }
}

/// A date of the proleptic Gregorian calendar, held as its day number:
/// January 1 of year 1 is day 1, the day before it day 0, and so on.
#[derive(Clone, Copy, Debug, Hash, PartialEq, Eq, Ord, Structural)]
pub struct Date {
    day_number: i32,
}

/// Weekday of the date with the given day number. Day 1, January 1 of
/// year 1, is a Monday.
pub open spec fn weekday_of_day_number(day_number: int) -> Weekday {
    weekday_from_monday_index((day_number - 1) % 7)
}

impl Date {
    #[verifier::type_invariant]
    spec fn in_range(self) -> bool {
        MIN_DAY_NUMBER <= self.day_number <= MAX_DAY_NUMBER
    }

    pub closed spec fn spec_day_number(self) -> int {
        self.day_number as int
    }

    pub open spec fn spec_weekday(self) -> Weekday {
        weekday_of_day_number(self.spec_day_number())
    }

    pub fn day_number(&self) -> (r: i32)
        ensures
            r == self.spec_day_number(),
            MIN_DAY_NUMBER <= r <= MAX_DAY_NUMBER,
    {
        proof {
            use_type_invariant(self);
        }
        self.day_number
    }

    /// The date with the given day number, if the calendar reaches it.
    pub fn from_day_number(day_number: i32) -> (r: Option<Date>)
        ensures
            r is Some <==> MIN_DAY_NUMBER <= day_number <= MAX_DAY_NUMBER,
            r matches Some(d) ==> d.spec_day_number() == day_number,
    {
        if MIN_DAY_NUMBER <= day_number && day_number <= MAX_DAY_NUMBER {
            Some(Date { day_number })
        } else {
            None
        }
    }

    /// The date with the given year, month (1 to 12) and day of the month,
    /// if it exists.
    pub fn from_ymd_opt(year: i32, month: u32, day: u32) -> (r: Option<Date>)
        ensures
            r is Some <==> calendar_day_number(year, month, day) is Some,
            r matches Some(d) ==> Some(d.spec_day_number() as i32) == calendar_day_number(
                year,
                month,
                day,
            ),
    {
        match day_number_of_year_month_day(year, month, day) {
            Some(n) => Some(Date { day_number: n }),
            None => None,
        }
    }

    pub fn year(&self) -> (r: i32)
        ensures
            r == calendar_year_month_day(self.spec_day_number() as i32).0,
    {
        let n = self.day_number();
        year_month_day_of_day_number(n).0
    }

    pub fn month(&self) -> (r: u32)
        ensures
            r == calendar_year_month_day(self.spec_day_number() as i32).1,
    {
        let n = self.day_number();
        year_month_day_of_day_number(n).1
    }

    pub fn day(&self) -> (r: u32)
        ensures
            r == calendar_year_month_day(self.spec_day_number() as i32).2,
    {
        let n = self.day_number();
        year_month_day_of_day_number(n).2
    }

    /// The date written as `dd/mm/yyyy`.
    pub fn to_day_month_year(&self) -> (r: String)
        ensures
            r@ == calendar_day_month_year_text(self.spec_day_number() as i32),
    {
        let n = self.day_number();
        day_month_year_text_of_day_number(n)
    }

    pub fn weekday(&self) -> (r: Weekday)
        ensures
            r == self.spec_weekday(),
    {
        let n = self.day_number();
        // 7 * 13678019 exceeds the distance from the earliest day number to 1.
        let shifted: u32 = (n as i64 - 1 + 7 * 13678019) as u32;
        let index = shifted % 7;
        assert(index as int == (n - 1) % 7) by (nonlinear_arith)
            requires
                shifted == n - 1 + 7 * 13678019,
                index == shifted % 7,
        ;
        Weekday::from_monday_index(index)
    }

    /// The date `days` days later. Dates past the end of the calendar do not
    /// exist, so the sum has to stay within it.
    pub fn add_days(&self, days: u32) -> (r: Date)
        requires
            self.spec_day_number() + days <= MAX_DAY_NUMBER,
        ensures
            r.spec_day_number() == self.spec_day_number() + days,
    {
        let n = self.day_number();
        Date { day_number: n + days as i32 }
    }

    /// Two dates are the same date exactly when their day numbers agree.
    pub proof fn lemma_same_day_number(a: Date, b: Date)
        ensures
            a.spec_day_number() == b.spec_day_number() <==> a == b,
    {
    }

    /// Whether this date comes strictly before `other`.
    pub fn is_before(&self, other: &Date) -> (r: bool)
        ensures
            r == (self.spec_day_number() < other.spec_day_number()),
    {
        self.day_number < other.day_number
    }
}

} // verus!
