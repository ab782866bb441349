//! A verified work-hours tracker core: a plain-text timesheet of per-day
//! accumulated durations, with monthly subtotals, a crash-safe backup commit
//! policy, and a timestamp-based local/remote synchronization policy.

pub mod date;
pub mod digits;
pub mod errors;
pub mod remaining_work;
pub mod report;
pub mod settings;
pub mod sync;
pub mod text;
pub mod timesheet;
pub mod util;
pub mod working_days;

pub use errors::HoursError;
