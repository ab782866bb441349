//! An earlier, anchor-only view of the remaining-work computation: working
//! days left in the anchor's month, always counting the anchor day itself.

use crate::date::{date_valid, days_in_month_spec, working_days_from, Date};
use crate::errors::HoursError;
use crate::remaining_work::num_working_days_spec;
use crate::util::Duration;
use vstd::prelude::*;

verus! {

#[derive(Debug, Clone, Copy, PartialEq, Eq, Structural)]
pub struct WorkDays {
    pub date: Date,
    pub remaining_work: Duration,
}

impl WorkDays {
    pub fn new(date: Date, remaining_work: Duration) -> (r: WorkDays)
        requires
            date_valid(date),
        ensures
            r.date == date,
            r.remaining_work == remaining_work,
    {
        WorkDays { date, remaining_work }
    }

    /// Working days from the anchor through the end of its month, excluding
    /// Saturdays and Sundays.
    pub fn remaining_days_in_month(&self) -> (r: u8)
        requires
            date_valid(self.date),
        ensures
            r as int == num_working_days_spec(self.date, true),
    {
        working_days_from(self.date.year, self.date.month, self.date.day)
    }

    /// The remaining work split evenly (rounding down to whole seconds)
    /// over those days; `DivisionError` exactly when none is left.
    pub fn remaining_work_per_day(&self) -> (r: Result<Duration, HoursError>)
        requires
            date_valid(self.date),
        ensures
            ({
                let nd = num_working_days_spec(self.date, true);
                match r {
                    Ok(d) => nd > 0 && d.secs == self.remaining_work.secs as int / nd,
                    Err(e) => nd == 0 && e == HoursError::DivisionError,
                }
            }),
    {
        let nd = self.remaining_days_in_month();
        if nd == 0 {
            Err(HoursError::DivisionError)
        } else {
            Ok(Duration { secs: self.remaining_work.secs / (nd as u64) })
        }
    }
}

} // verus!
