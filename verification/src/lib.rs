//! Request-rate statistics from web-server access logs.
//!
//! The library extracts bracketed timestamps of the form
//! `[DD/Mon/YYYY:HH:MM:SS +ZZZZ]` from raw log lines, collects them together
//! with their observed minimum and maximum, and buckets them into a complete,
//! gap-free, time-ordered series of fixed-width intervals suitable for
//! plotting. Reading files and rendering the chart are left to the
//! surrounding application.

pub mod extract;
pub mod pipeline;
pub mod series;
pub mod timestamp;
