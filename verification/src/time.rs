//! Calendar arithmetic over plain instants (seconds since the Unix epoch):
//! UTC day numbers, local-time floors for bucket origins, and the day range
//! a query spans.  A time zone enters only as its offset in seconds; the
//! I/O shell asks its clock library for that offset.

use vstd::prelude::*;
use vstd::arithmetic::div_mod::{
    lemma_div_by_multiple, lemma_fundamental_div_mod, lemma_hoist_over_denominator,
    lemma_mod_division_less_than_divisor,
};

use crate::interval::MAX_INSTANT;

verus! {

pub const SECONDS_PER_MINUTE: i64 = 60;

pub const SECONDS_PER_HOUR: i64 = 3_600;

pub const SECONDS_PER_DAY: i64 = 86_400;

pub const SECONDS_PER_WEEK: i64 = 604_800;

/// Shift that maps every supported instant (with any plausible zone offset
/// added) to a non-negative number, so unsigned division computes floors.
/// A multiple of a week — and of seven days — so day numbers, and day
/// numbers modulo seven, keep their meaning under the shift.
pub const INSTANT_SHIFT: i64 = 9_072_000_000_000;

/// Largest magnitude of a local instant this module accepts: an instant in
/// range plus a zone offset and some headroom.
pub const MAX_LOCAL: i64 = 8_000_002_000_000;

/// The UTC day number an instant falls in (floor division).
pub open spec fn spec_day_of(t: int) -> int {
    t / 86400
}

/// Midnight at the start of the day holding the local instant `l`.
pub open spec fn day_start(l: int) -> int {
    86400 * (l / 86400)
}

/// The start of the hour holding the local instant `l`.
pub open spec fn hour_floor(l: int) -> int {
    3600 * (l / 3600)
}

/// The start of the minute holding the local instant `l`.
pub open spec fn minute_floor(l: int) -> int {
    60 * (l / 60)
}

/// Midnight at the start of the week (weeks begin on Monday) holding the
/// local instant `l`.  Day zero of the epoch was a Thursday, three days
/// after a Monday.
pub open spec fn week_floor(l: int) -> int {
    let d = l / 86400;
    86400 * (d - ((d + 3) % 7))
}

/// Floor division of a possibly negative instant by a unit that divides
/// [`INSTANT_SHIFT`]: computed in the shifted, non-negative domain.
pub fn floor_div_unit(l: i64, d: i64) -> (r: i64)
    requires
        -MAX_LOCAL <= l <= MAX_LOCAL,
        0 < d <= SECONDS_PER_WEEK,
        (INSTANT_SHIFT as int) % (d as int) == 0,
    ensures
        r as int == (l as int) / (d as int),
        (r as int) * d <= l < (r as int) * d + d,
{
    let shifted = (l + INSTANT_SHIFT) as u64;
    let du = d as u64;
    let q = shifted / du;
    let shift_q = (INSTANT_SHIFT as u64) / du;
    proof {
        let li = l as int;
        let di = d as int;
        let j = (INSTANT_SHIFT as int) / di;
        assert(di * j == INSTANT_SHIFT as int) by {
            lemma_fundamental_div_mod(INSTANT_SHIFT as int, di);
        }
        assert(li / di + j == (li + j * di) / di) by {
            lemma_hoist_over_denominator(li, j, d as nat);
        }
        assert(j * di == di * j);
        assert(q as int == li / di + j);
        assert(shift_q as int == j) by {
            assert((INSTANT_SHIFT as int) / di == (di * j) / di);
            assert((j * di) / di == j) by {
                lemma_div_by_multiple(j, di);
            }
            assert(di * j == j * di);
        }
        lemma_fundamental_div_mod(li, di);
        lemma_mod_division_less_than_divisor(li, di);
        assert(q <= shifted) by {
            lemma_fundamental_div_mod(shifted as int, di);
            lemma_mod_division_less_than_divisor(shifted as int, di);
            assert((di * (q as int)) >= (q as int)) by (nonlinear_arith)
                requires
                    di >= 1,
                    q >= 0,
            ;
        }
    }
    (q as i64) - (shift_q as i64)
}

/// The UTC day number an instant falls in, the executable counterpart of
/// [`spec_day_of`].
pub fn day_of_instant(t: i64) -> (r: i64)
    requires
        -MAX_INSTANT <= t <= MAX_INSTANT,
    ensures
        r as int == spec_day_of(t as int),
{
    floor_div_unit(t, SECONDS_PER_DAY)
}

/// The instant where the local day after the one holding `t` begins.
pub open spec fn spec_next_day_start(t: int, off: int) -> int {
    day_start(t + off + 86400) - off
}

/// Start of the next local day, the executable counterpart of
/// [`spec_next_day_start`]: local midnight after adding one day.
pub fn next_day_start(t: i64, offset_seconds: i32) -> (r: i64)
    requires
        -MAX_INSTANT <= t <= MAX_INSTANT,
        -86400 <= offset_seconds <= 86400,
    ensures
        r as int == spec_next_day_start(t as int, offset_seconds as int),
{
    let local = t + (offset_seconds as i64) + SECONDS_PER_DAY;
    let d = floor_div_unit(local, SECONDS_PER_DAY);
    d * SECONDS_PER_DAY - (offset_seconds as i64)
}

/// The inclusive range of day numbers from `start_day` to `end_day`: the
/// days whose record files can hold data for a query between instants on
/// those days.
pub fn date_range(start_day: i64, end_day: i64) -> (r: Vec<i64>)
    requires
        -MAX_INSTANT <= start_day <= MAX_INSTANT,
        -MAX_INSTANT <= end_day <= MAX_INSTANT,
    ensures
        end_day < start_day ==> r@.len() == 0,
        start_day <= end_day ==> r@.len() == end_day - start_day + 1,
        forall|k: int| 0 <= k < r@.len() ==> (#[trigger] r@[k]) as int == start_day + k,
{
    let mut r: Vec<i64> = Vec::new();
    if end_day < start_day {
        return r;
    }
    let mut d = start_day;
    while d <= end_day
        invariant
            start_day <= d <= end_day + 1,
            -MAX_INSTANT <= start_day,
            end_day <= MAX_INSTANT,
            r@.len() == d - start_day,
            forall|k: int| 0 <= k < r@.len() ==> (#[trigger] r@[k]) as int == start_day + k,
        decreases end_day + 1 - d,
    {
        r.push(d);
        d = d + 1;
    }
    r
}

} // verus!
