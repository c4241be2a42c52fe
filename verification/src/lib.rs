//! Schedule indexing and departure queries over a static transit feed.
//!
//! The crate correlates routes, trips, stop-time sequences and service
//! calendars of a parsed feed into a per-stop database of schedule records,
//! and answers date- and weekday-filtered, time-ordered departure queries
//! over such databases.

pub mod calendar;
pub mod config;
pub mod db;
pub mod feed;
pub mod timetables;
pub mod utils;
