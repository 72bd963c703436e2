//! A verified core for an activity time tracker.
//!
//! The library records how many hours are spent on named activities, keyed
//! by calendar date, and derives rolling and yearly statistics from that
//! record.  Hours are held as integer micro-hours (millionths of an hour),
//! so rounding to six decimal digits is exact integer arithmetic.
//! Calendar arithmetic (month lengths, leap years, day numbers, ISO weeks)
//! is implemented and proved here; the persistent store and all input and
//! output live outside the library and exchange plain values with it.

pub mod calendar;
pub mod ledger;
pub mod queries;
pub mod stats;
pub mod sums;

pub use calendar::Date;
pub use calendar::days_in_month;
pub use calendar::days_in_year;
pub use calendar::max_iso_week;
pub use ledger::ActivitiesRow;
pub use ledger::ActivityRecord;
pub use ledger::DayEntry;
pub use ledger::EnterOutcome;
pub use ledger::Ledger;
pub use ledger::LedgerError;
pub use ledger::Timestamp;
pub use stats::YearCounts;
