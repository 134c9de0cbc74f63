use vstd::prelude::*;

verus! {

/// A calendar date. The all-zero value is the sentinel that precedes every
/// real date; real dates have `1 <= month <= 12` and `1 <= day <= 31`.
#[derive(Clone, Copy, Debug, PartialEq, Eq, Structural)]
pub struct Date {
    pub year: u32,
    pub month: u32,
    pub day: u32,
}

/// Lexicographic order on (year, month, day).
pub open spec fn date_lt(a: Date, b: Date) -> bool {
    a.year < b.year || (a.year == b.year && (a.month < b.month || (a.month == b.month
        && a.day < b.day)))
}

/// Number of the calendar month of a date, counted from year 0.
pub open spec fn month_index(d: Date) -> int {
    d.year * 12 + d.month
}

impl Date {
    /// The sentinel date that precedes every date of a ledger.
    pub fn sentinel() -> (r: Date)
        ensures
            r.year == 0 && r.month == 0 && r.day == 0,
    {
        Date { year: 0, month: 0, day: 0 }
    }

    pub fn new(year: u32, month: u32, day: u32) -> (r: Date)
        ensures
            r.year == year && r.month == month && r.day == day,
    {
        Date { year, month, day }
    }

    pub fn is_before(&self, other: &Date) -> (r: bool)
        ensures
            r == date_lt(*self, *other),
    {
        self.year < other.year || (self.year == other.year && (self.month < other.month || (
        self.month == other.month && self.day < other.day)))
    }

    /// The number of this date's calendar month, as `month_index` gives it.
    pub fn month_number(&self) -> (r: u64)
        ensures
            r == month_index(*self),
    {
        self.year as u64 * 12 + self.month as u64
    }

    pub fn same_month(&self, other: &Date) -> (r: bool)
        ensures
            r == (self.year == other.year && self.month == other.month),
    {
        self.year == other.year && self.month == other.month
    }
}

} // verus!
