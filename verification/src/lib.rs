//! A timezone-naive calendar engine on the proleptic Gregorian calendar,
//! restricted to the years 1970 through 4000.
//!
//! The library converts between a structured date/time ([`types::DateTime`])
//! and a linear millisecond timestamp, validates date/times against real
//! calendar rules (leap years, variable month lengths), and computes
//! recurrence timing for periodic schedules ([`types::Schedule`]) through
//! [`calendar::Calendar`].

pub mod calendar;
pub mod recurrence;
pub mod types;
pub mod utils;
