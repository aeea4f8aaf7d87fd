//! Storage engine and streaming aggregation pipeline of a local
//! activity tracker.
//!
//! A collector observes the foreground window once per tick and produces
//! [`interval::Sample`] values; the collapse engine merges runs of samples
//! into minimal [`interval::Interval`] records; records are persisted as
//! newline-delimited JSON in one file per UTC day; the query path reads the
//! files back, clamps the intervals to a requested range, groups them into
//! calendar-aligned buckets and aggregates per-process usage totals.
//!
//! All data here is modelled over plain values: instants are seconds since
//! the Unix epoch, durations are non-negative second counts.  The I/O shell
//! around this crate converts to and from its own clock and file types.

pub mod analyze;
pub mod codec;
pub mod collapse;
pub mod grouping;
pub mod interval;
pub mod paths;
pub mod pipeline;
pub mod store;
pub mod time;
pub mod timeline;
