//! Remaining work for the current month: how many working days are left and
//! the pace per day needed to spend a remaining duration by month's end.

use crate::date::{
    count_working_days, date_valid, days_in_month_spec, working_days_from, Date,
};
use crate::errors::HoursError;
use crate::util::Duration;
use vstd::prelude::*;

verus! {

/// Whether the anchor day itself still counts as a day to work on.
#[derive(Debug, Clone, Copy, PartialEq, Eq, Structural)]
pub enum IncludeToday {
    Yes,
    No,
}

/// A snapshot of how much work is still owed this month, anchored at a date.
#[derive(Debug, Clone, Copy, PartialEq, Eq, Structural)]
pub struct RemainingWork {
    pub date: Date,
    pub remaining_time: Duration,
}

/// Working days from the anchor (or the day after it) through the end of
/// the anchor's month.
pub open spec fn num_working_days_spec(d: Date, include_today: bool) -> int {
    count_working_days(
        d.year as int,
        d.month as int,
        if include_today {
            d.day as int
        } else {
            d.day as int + 1
        },
        days_in_month_spec(d.year as int, d.month as int),
    )
}

impl RemainingWork {
    pub fn new(date: Date, remaining_time: Duration) -> (r: RemainingWork)
        requires
            date_valid(date),
        ensures
            r.date == date,
            r.remaining_time == remaining_time,
    {
        RemainingWork { date, remaining_time }
    }

    /// Counts the calendar days from the anchor (or the day after, for
    /// `IncludeToday::No`) through the end of the anchor's month, excluding
    /// Saturdays and Sundays.
    pub fn num_working_days(&self, include_today: IncludeToday) -> (r: u8)
        requires
            date_valid(self.date),
        ensures
            r as int == num_working_days_spec(self.date, include_today == IncludeToday::Yes),
    {
        let lo = match include_today {
            IncludeToday::Yes => self.date.day,
            IncludeToday::No => self.date.day + 1,
        };
        working_days_from(self.date.year, self.date.month, lo)
    }

    /// The remaining time split evenly (rounding down to whole seconds)
    /// over the remaining working days; `DivisionError` exactly when no
    /// working day is left.
    pub fn time_per_day(&self, include_today: IncludeToday) -> (r: Result<Duration, HoursError>)
        requires
            date_valid(self.date),
        ensures
            ({
                let nd = num_working_days_spec(self.date, include_today == IncludeToday::Yes);
                match r {
                    Ok(d) => nd > 0 && d.secs == self.remaining_time.secs as int / nd,
                    Err(e) => nd == 0 && e == HoursError::DivisionError,
                }
            }),
    {
        let nd = self.num_working_days(include_today);
        if nd == 0 {
            Err(HoursError::DivisionError)
        } else {
            Ok(Duration { secs: self.remaining_time.secs / (nd as u64) })
        }
    }
}

} // verus!
