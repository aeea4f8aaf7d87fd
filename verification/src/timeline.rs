//! Resolving a timeline query's parameters: the defaults for a missing
//! start or end, whole-day treatment, and whether the printed timeline
//! shows a time of day.  Parsing the human-written dates themselves is
//! the shell's job; this takes instants and produces the exact range.

use vstd::prelude::*;

use crate::grouping::SlidingInterval;
use crate::interval::MAX_INSTANT;
use crate::time::{day_start, spec_next_day_start, floor_div_unit, next_day_start, SECONDS_PER_DAY};

verus! {

/// How many bucket widths before now a timeline reaches back when no
/// start is given.
pub const DEFAULT_PRINTED_INTERVALS: i64 = 10;

/// The resolved half-open query range and how to print its bucket
/// starts.
pub struct QueryRange {
    /// Inclusive start instant.
    pub start: i64,
    /// Exclusive end instant.
    pub end: i64,
    /// Whether bucket starts are printed with a time of day (true for
    /// widths finer than a day).
    pub show_time: bool,
}

/// Resolves a timeline query: a missing start defaults to
/// [`DEFAULT_PRINTED_INTERVALS`] widths before now, a missing end to now;
/// when the query is treated as whole days — asked for explicitly, or
/// implied by a width of days or weeks — the start is widened back to its
/// local midnight and the end forward to the start of the next local
/// day.  The time of day is shown exactly for widths finer than a day.
pub fn resolve_query_range(
    start_opt: Option<i64>,
    end_opt: Option<i64>,
    now: i64,
    scale: &SlidingInterval,
    treat_as_days_flag: bool,
    offset_seconds: i32,
) -> (r: QueryRange)
    requires
        scale.wf(),
        -86400 <= offset_seconds <= 86400,
        -MAX_INSTANT + 7_000_000 <= now <= MAX_INSTANT - 7_000_000,
        start_opt matches Some(t) ==> -MAX_INSTANT <= t <= MAX_INSTANT,
        end_opt matches Some(t) ==> -MAX_INSTANT <= t <= MAX_INSTANT,
    ensures
        ({
            let off = offset_seconds as int;
            let whole_days = treat_as_days_flag || scale.spec_time().spec_spans_whole_days();
            let raw_start = match start_opt {
                Some(t) => t as int,
                None => now - scale.width_seconds() * DEFAULT_PRINTED_INTERVALS,
            };
            let raw_end = match end_opt {
                Some(t) => t as int,
                None => now as int,
            };
            &&& r.start as int == if whole_days {
                day_start(raw_start + off) - off
            } else {
                raw_start
            }
            &&& r.end as int == if whole_days {
                spec_next_day_start(raw_end, off)
            } else {
                raw_end
            }
            &&& r.show_time == !scale.spec_time().spec_spans_whole_days()
        }),
{
    let whole_days = treat_as_days_flag || scale.time().spans_whole_days();
    let width = scale.as_duration();
    let raw_start = match start_opt {
        Some(t) => t,
        None => now - width * DEFAULT_PRINTED_INTERVALS,
    };
    let raw_end = match end_opt {
        Some(t) => t,
        None => now,
    };
    let off = offset_seconds as i64;
    let start = if whole_days {
        floor_div_unit(raw_start + off, SECONDS_PER_DAY) * SECONDS_PER_DAY - off
    } else {
        raw_start
    };
    let end = if whole_days {
        next_day_start(raw_end, offset_seconds)
    } else {
        raw_end
    };
    let show_time = !scale.time().spans_whole_days();
    QueryRange { start, end, show_time }
}

} // verus!
