//! Classifies a time-ordered stream of geographic coordinates against a
//! catalog of country border polygons, producing a ledger of country-visit
//! intervals, which can then be grouped by year or by country for reporting.
//!
//! Coordinates are plain signed 64-bit fixed-point values (the caller picks
//! the scale, e.g. microdegrees); timestamps are seconds since the Unix epoch.

pub mod aggregate;
pub mod builder;
pub mod catalog;
pub mod classify;
pub mod codec;
pub mod geometry;
pub mod order;
pub mod segment;
pub mod visit;

pub use visit::Timestamp;
pub use visit::Visit;
pub use visit::Visits;
