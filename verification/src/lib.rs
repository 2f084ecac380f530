//! A small expense-tracking library: a fixed-point money model, a
//! plain-text transaction store, and the aggregation logic behind the
//! reports of a personal expense tracker.
//!
//! Amounts are held as integer hundredths of the currency unit, dates as
//! plain year/month/day values; the store is a comma-separated text file
//! with a fixed header line. Reading the store is tolerant: malformed
//! rows are counted and skipped, never fatal.

pub mod analyze;
pub mod dates;
pub mod error;
pub mod expense;
pub mod money;
pub mod stats;
pub mod store;
pub mod text;
