//! The sliding bucket grouper: a bucket width in human units, the
//! calendar-aligned bucket origin, the day-clipped bucket boundaries, and
//! the replay of a chronological interval stream into those buckets.

use vstd::prelude::*;
use vstd::arithmetic::div_mod::{
    lemma_div_pos_is_pos, lemma_fundamental_div_mod, lemma_mod_division_less_than_divisor,
};

use crate::interval::{Interval, IntervalModel, MAX_INSTANT};
use crate::time::{
    day_start, floor_div_unit, hour_floor, minute_floor, week_floor, SECONDS_PER_DAY,
    SECONDS_PER_HOUR, SECONDS_PER_MINUTE, SECONDS_PER_WEEK,
};

verus! {

/// The human unit a bucket width is given in.
#[derive(Debug, Clone, Copy, PartialEq, Eq, Structural)]
pub enum TimeOption {
    Weeks,
    Days,
    Hours,
    Minutes,
    Seconds,
}

impl TimeOption {
    /// The unit's name, as it is written on a command line.
    pub fn name(&self) -> (r: &'static str)
        ensures
            r@ == match *self {
                TimeOption::Weeks => "weeks"@,
                TimeOption::Days => "days"@,
                TimeOption::Hours => "hours"@,
                TimeOption::Minutes => "minutes"@,
                TimeOption::Seconds => "seconds"@,
            },
    {
        match self {
            TimeOption::Weeks => "weeks",
            TimeOption::Days => "days",
            TimeOption::Hours => "hours",
            TimeOption::Minutes => "minutes",
            TimeOption::Seconds => "seconds",
        }
    }

    /// Whether buckets of this unit span whole days or more, so that a
    /// printed timeline needs no time of day.
    pub open spec fn spec_spans_whole_days(self) -> bool {
        match self {
            TimeOption::Weeks | TimeOption::Days => true,
            TimeOption::Hours | TimeOption::Minutes | TimeOption::Seconds => false,
        }
    }

    /// Whether buckets of this unit span whole days or more, the
    /// executable counterpart of [`TimeOption::spec_spans_whole_days`].
    pub fn spans_whole_days(&self) -> (r: bool)
        ensures
            r == self.spec_spans_whole_days(),
    {
        match self {
            TimeOption::Weeks | TimeOption::Days => true,
            _ => false,
        }
    }
}

/// A bucket width in simple human terms — an amount of one unit, capped
/// to a sane range per unit.  Using this instead of a raw second count
/// keeps the origin rounding in [`clean_time_start`] meaningful and is
/// easier to type on a command line.
#[derive(Debug, Clone, Copy, PartialEq, Eq, Structural)]
pub struct SlidingInterval {
    duration: u32,
    time: TimeOption,
}

impl SlidingInterval {
    /// The amount of the unit.
    pub closed spec fn spec_duration(self) -> u32 {
        self.duration
    }

    /// The unit.
    pub closed spec fn spec_time(self) -> TimeOption {
        self.time
    }

    /// The caps [`SlidingInterval::new_opt`] enforces: a positive amount,
    /// below a day for hours, below an hour for minutes and seconds,
    /// below a week for days, and exactly one week.
    pub open spec fn wf(self) -> bool {
        match self.spec_time() {
            TimeOption::Hours => 1 <= self.spec_duration() < 24,
            TimeOption::Minutes => 1 <= self.spec_duration() < 60,
            TimeOption::Seconds => 1 <= self.spec_duration() < 60,
            TimeOption::Days => 1 <= self.spec_duration() < 7,
            TimeOption::Weeks => self.spec_duration() == 1,
        }
    }

    /// The bucket width in seconds.
    pub open spec fn width_seconds(self) -> int {
        match self.spec_time() {
            TimeOption::Hours => 3600 * self.spec_duration(),
            TimeOption::Minutes => 60 * self.spec_duration(),
            TimeOption::Seconds => self.spec_duration() as int,
            TimeOption::Days => 86400 * self.spec_duration(),
            TimeOption::Weeks => 604800 * self.spec_duration(),
        }
    }

    /// Builds a width when the amount is within the unit's cap, and
    /// refuses an amount of zero: a bucket must have positive width for
    /// the grouping pass to advance.
    pub fn new_opt(duration: u32, time: TimeOption) -> (r: Option<Self>)
        ensures
            r is Some <==> match time {
                TimeOption::Hours => 1 <= duration < 24,
                TimeOption::Minutes => 1 <= duration < 60,
                TimeOption::Seconds => 1 <= duration < 60,
                TimeOption::Days => 1 <= duration < 7,
                TimeOption::Weeks => duration == 1,
            },
            r matches Some(s) ==> s.wf() && s.spec_duration() == duration && s.spec_time() == time,
    {
        match time {
            TimeOption::Hours => {
                if 1 <= duration && duration < 24 {
                    Some(Self { duration, time })
                } else {
                    None
                }
            },
            TimeOption::Minutes => {
                if 1 <= duration && duration < 60 {
                    Some(Self { duration, time })
                } else {
                    None
                }
            },
            TimeOption::Seconds => {
                if 1 <= duration && duration < 60 {
                    Some(Self { duration, time })
                } else {
                    None
                }
            },
            TimeOption::Days => {
                if 1 <= duration && duration < 7 {
                    Some(Self { duration, time })
                } else {
                    None
                }
            },
            TimeOption::Weeks => {
                if duration == 1 {
                    Some(Self { duration, time })
                } else {
                    None
                }
            },
        }
    }

    /// The amount of the unit.
    pub fn duration(&self) -> (r: u32)
        ensures
            r == self.spec_duration(),
    {
        self.duration
    }

    /// The unit.
    pub fn time(&self) -> (r: &TimeOption)
        ensures
            *r == self.spec_time(),
    {
        &self.time
    }

    /// The bucket width in seconds.
    pub fn as_duration(&self) -> (r: i64)
        requires
            self.wf(),
        ensures
            r as int == self.width_seconds(),
            1 <= r <= 604800,
    {
        let d = self.duration as i64;
        match self.time {
            TimeOption::Hours => 3600 * d,
            TimeOption::Minutes => 60 * d,
            TimeOption::Seconds => d,
            TimeOption::Days => 86400 * d,
            TimeOption::Weeks => 604800 * d,
        }
    }
}

/// A bucket width as it arrives from the command line: an amount and a
/// unit, not yet held to the caps.
#[derive(Debug, Clone, Copy, PartialEq, Eq, Structural)]
pub struct PrintInterval {
    pub duration: u32,
    pub option: TimeOption,
}

impl PrintInterval {
    /// The validated width, when the amount is within the unit's cap.
    pub fn to_interval(&self) -> (r: Option<SlidingInterval>)
        ensures
            r is Some <==> match self.option {
                TimeOption::Hours => 1 <= self.duration < 24,
                TimeOption::Minutes => 1 <= self.duration < 60,
                TimeOption::Seconds => 1 <= self.duration < 60,
                TimeOption::Days => 1 <= self.duration < 7,
                TimeOption::Weeks => self.duration == 1,
            },
            r matches Some(sc) ==> sc.wf() && sc.spec_duration() == self.duration
                && sc.spec_time() == self.option,
    {
        SlidingInterval::new_opt(self.duration, self.option)
    }
}

/// The calendar-aligned bucket origin: the given instant rounded down, in
/// the reference time zone, to the nearest clean boundary of the bucket
/// width — the start of its week or day, or the start of the day, hour or
/// minute plus a whole number of widths.
pub open spec fn spec_clean_start(t: int, off: int, scale: SlidingInterval) -> int {
    let l = t + off;
    let a = scale.spec_duration() as int;
    match scale.spec_time() {
        TimeOption::Weeks => week_floor(l) - off,
        TimeOption::Days => day_start(l) - off,
        TimeOption::Hours => {
            let h = (l - day_start(l)) / 3600;
            day_start(l) + 3600 * (h - h % a) - off
        },
        TimeOption::Minutes => {
            let m = (l - hour_floor(l)) / 60;
            hour_floor(l) + 60 * (m - m % a) - off
        },
        TimeOption::Seconds => {
            let s = l - minute_floor(l);
            minute_floor(l) + (s - s % a) - off
        },
    }
}

/// A non-negative remainder is at most what it divides.
proof fn lemma_rem_le(h: int, a: int)
    requires
        0 <= h,
        1 <= a,
    ensures
        0 <= h % a <= h,
        h - h % a >= 0,
{
    lemma_fundamental_div_mod(h, a);
    lemma_mod_division_less_than_divisor(h, a);
    lemma_div_pos_is_pos(h, a);
    assert(a * (h / a) >= 0) by (nonlinear_arith)
        requires
            a >= 1,
            h / a >= 0,
    ;
}

/// Rounds an instant down to the calendar-aligned bucket origin in the
/// reference zone, the executable counterpart of [`spec_clean_start`].
/// A timeline is easier to read when it starts at a clean boundary.
pub fn clean_time_start(t: i64, scale: &SlidingInterval, offset_seconds: i32) -> (r: i64)
    requires
        scale.wf(),
        -MAX_INSTANT <= t <= MAX_INSTANT,
        -86400 <= offset_seconds <= 86400,
    ensures
        r as int == spec_clean_start(t as int, offset_seconds as int, *scale),
        t - 700_000 <= r <= t,
{
    let off = offset_seconds as i64;
    let l = t + off;
    let a = scale.duration() as i64;
    let unit = *scale.time();
    match unit {
        TimeOption::Weeks => {
            let w = floor_div_unit(l + 259_200, SECONDS_PER_WEEK) * SECONDS_PER_WEEK - 259_200;
            w - off
        },
        TimeOption::Days => {
            let ds = floor_div_unit(l, SECONDS_PER_DAY) * SECONDS_PER_DAY;
            ds - off
        },
        TimeOption::Hours => {
            let ds = floor_div_unit(l, SECONDS_PER_DAY) * SECONDS_PER_DAY;
            let h = (((l - ds) as u64) / 3600) as i64;
            let hrem = (((h as u64) % (a as u64))) as i64;
            proof {
                lemma_rem_le((l as int - ds as int) / 3600, a as int);
            }
            ds + 3600 * (h - hrem) - off
        },
        TimeOption::Minutes => {
            let hf = floor_div_unit(l, SECONDS_PER_HOUR) * SECONDS_PER_HOUR;
            let m = (((l - hf) as u64) / 60) as i64;
            let mrem = (((m as u64) % (a as u64))) as i64;
            proof {
                lemma_rem_le((l as int - hf as int) / 60, a as int);
            }
            hf + 60 * (m - mrem) - off
        },
        TimeOption::Seconds => {
            let mf = floor_div_unit(l, SECONDS_PER_MINUTE) * SECONDS_PER_MINUTE;
            let s = l - mf;
            let srem = (((s as u64) % (a as u64))) as i64;
            proof {
                lemma_rem_le(l as int - mf as int, a as int);
            }
            mf + (s - srem) - off
        },
    }
}

/// The end of the bucket starting at `start`: one width later, clipped
/// back to local midnight when that would land in a different local day —
/// a bucket is never allowed to silently span two printed dates.
pub open spec fn spec_bucket_end(start: int, width: int, off: int) -> int {
    let e = start + width;
    if (start + off) / 86400 != (e + off) / 86400 {
        day_start(e + off) - off
    } else {
        e
    }
}

/// The day-clipped bucket end, the executable counterpart of
/// [`spec_bucket_end`].
pub fn bucket_end(start: i64, width: i64, offset_seconds: i32) -> (r: i64)
    requires
        -MAX_INSTANT - 1_000_000 <= start <= MAX_INSTANT + 1_000_000,
        1 <= width <= 604800,
        -86400 <= offset_seconds <= 86400,
    ensures
        r as int == spec_bucket_end(start as int, width as int, offset_seconds as int),
        start < r <= start + width,
{
    let off = offset_seconds as i64;
    let e = start + width;
    let d1 = floor_div_unit(start + off, SECONDS_PER_DAY);
    let d2 = floor_div_unit(e + off, SECONDS_PER_DAY);
    if d1 != d2 {
        proof {
            assert(d1 < d2) by {
                assert(d1 as int <= d2 as int) by {
                    vstd::arithmetic::div_mod::lemma_div_is_ordered(
                        start as int + off as int,
                        e as int + off as int,
                        86400,
                    );
                }
            }
            assert((d2 as int) * 86400 >= (d1 as int + 1) * 86400) by (nonlinear_arith)
                requires
                    d1 as int + 1 <= d2 as int,
            ;
        }
        d2 * SECONDS_PER_DAY - off
    } else {
        e
    }
}

/// Every interval in the sequence is well-formed.
pub open spec fn intervals_wf(s: Seq<IntervalModel>) -> bool {
    forall|i: int| 0 <= i < s.len() ==> (#[trigger] s[i]).wf()
}

/// The sequence is chronological and non-overlapping: each interval
/// starts no earlier than the previous one ends.
pub open spec fn chronological(s: Seq<IntervalModel>) -> bool {
    forall|i: int| 1 <= i < s.len() ==> (#[trigger] s[i]).start >= s[i - 1].end()
}

/// The defensive pass over an incoming stream: keep each interval that
/// starts no earlier than the previous kept one ends, discard the rest.
/// On a stream that is already chronological this keeps everything.
pub open spec fn drop_overlapping(s: Seq<IntervalModel>, low: int) -> Seq<IntervalModel>
    decreases s.len(),
{
    if s.len() == 0 {
        Seq::empty()
    } else if s[0].start >= low {
        seq![s[0]] + drop_overlapping(s.drop_first(), s[0].end())
    } else {
        drop_overlapping(s.drop_first(), low)
    }
}

/// What the defensive pass guarantees: a chronological, well-formed
/// subsequence, led by the first acceptable interval.
pub proof fn lemma_drop_overlapping_props(s: Seq<IntervalModel>, low: int)
    requires
        intervals_wf(s),
    ensures
        ({
            let r = drop_overlapping(s, low);
            &&& chronological(r)
            &&& intervals_wf(r)
            &&& forall|i: int| 0 <= i < r.len() ==> (#[trigger] r[i]).start >= low
            &&& (s.len() > 0 && s[0].start >= low ==> r.len() > 0 && r[0] == s[0])
        }),
    decreases s.len(),
{
    if s.len() == 0 {
    } else {
        let rest = s.drop_first();
        assert(forall|i: int| 0 <= i < rest.len() ==> rest[i] == s[i + 1]);
        if s[0].start >= low {
            lemma_drop_overlapping_props(rest, s[0].end());
            let tail = drop_overlapping(rest, s[0].end());
            let r = seq![s[0]] + tail;
            assert(forall|i: int| 0 <= i < tail.len() ==> r[i + 1] == tail[i]);
            assert(chronological(r)) by {
                assert(forall|i: int|
                    2 <= i < r.len() ==> (#[trigger] r[i]).start >= r[i - 1].end());
                if r.len() > 1 {
                    assert(r[1] == tail[0]);
                    assert(tail[0].start >= s[0].end());
                }
            }
        } else {
            lemma_drop_overlapping_props(rest, low);
        }
    }
}

/// On a chronological stream the defensive pass keeps everything.
pub proof fn lemma_drop_overlapping_id(s: Seq<IntervalModel>, low: int)
    requires
        chronological(s),
        s.len() > 0 ==> s[0].start >= low,
    ensures
        drop_overlapping(s, low) == s,
    decreases s.len(),
{
    if s.len() > 0 {
        let rest = s.drop_first();
        assert(forall|i: int| 0 <= i < rest.len() ==> rest[i] == s[i + 1]);
        lemma_drop_overlapping_id(rest, s[0].end());
        assert(seq![s[0]] + rest =~= s);
    }
}

/// The defensive pass, the executable counterpart of
/// [`drop_overlapping`] seeded below every well-formed start.
fn keep_ordered(values: Vec<Interval>) -> (r: Vec<Interval>)
    requires
        intervals_wf(values.deep_view()),
    ensures
        r.deep_view() == drop_overlapping(values.deep_view(), -MAX_INSTANT - 1),
{
    let ghost vs = values.deep_view();
    let mut r: Vec<Interval> = Vec::new();
    let mut low: i64 = -MAX_INSTANT - 1;
    let mut j: usize = 0;
    let n = values.len();
    proof {
        assert(vs.skip(0) =~= vs);
    }
    while j < n
        invariant
            n == values@.len(),
            0 <= j <= n,
            vs == values.deep_view(),
            intervals_wf(vs),
            drop_overlapping(vs, -MAX_INSTANT - 1) == r.deep_view() + drop_overlapping(
                vs.skip(j as int),
                low as int,
            ),
        decreases n - j,
    {
        proof {
            assert(vs.skip(j as int)[0] == vs[j as int]);
            assert(vs.skip(j as int).drop_first() =~= vs.skip(j + 1));
            assert(vs[j as int] == values@[j as int]@);
            assert(vs[j as int].wf());
        }
        let keep = values[j].start >= low;
        if keep {
            let ghost r0 = r.deep_view();
            let item_end = values[j].end();
            let item = values[j].clone();
            r.push(item);
            low = item_end;
            proof {
                assert(r.deep_view() =~= r0.push(vs[j as int]));
                assert(r0.push(vs[j as int]) =~= r0 + seq![vs[j as int]]);
                assert(r0 + (seq![vs[j as int]] + drop_overlapping(vs.skip(j + 1), vs[j as int].end()))
                    =~= (r0 + seq![vs[j as int]]) + drop_overlapping(
                    vs.skip(j + 1),
                    vs[j as int].end(),
                ));
            }
        }
        j = j + 1;
    }
    proof {
        assert(vs.skip(n as int).len() == 0);
        assert(drop_overlapping(vs.skip(n as int), low as int) =~= Seq::<IntervalModel>::empty());
        assert(r.deep_view() + Seq::<IntervalModel>::empty() =~= r.deep_view());
    }
    r
}

/// The piece of one interval that belongs to the bucket `[bs, be)`: for an
/// interval of positive length, its clamp to the bucket; for a
/// zero-duration interval, the whole of it, in the first bucket whose end
/// reaches it (so a bare observation sitting exactly on a boundary is
/// never lost to rounding).
pub open spec fn bucket_take(m: IntervalModel, bs: int, be: int, first: bool) -> Option<
    IntervalModel,
> {
    if m.duration == 0 {
        if first {
            if m.start <= be {
                Some(m)
            } else {
                None
            }
        } else {
            if bs < m.start <= be {
                Some(m)
            } else {
                None
            }
        }
    } else {
        m.clamp(bs, be)
    }
}

/// The pieces of a whole stream that belong to the bucket `[bs, be)`, in
/// stream order.
pub open spec fn bucket_content(s: Seq<IntervalModel>, bs: int, be: int, first: bool) -> Seq<
    IntervalModel,
>
    decreases s.len(),
{
    if s.len() == 0 {
        Seq::empty()
    } else {
        match bucket_take(s[0], bs, be, first) {
            Some(p) => seq![p] + bucket_content(s.drop_first(), bs, be, first),
            None => bucket_content(s.drop_first(), bs, be, first),
        }
    }
}

/// The piece of one interval belonging to a bucket, the executable
/// counterpart of [`bucket_take`].
fn bucket_take_one(iv: &Interval, bs: i64, be: i64, first: bool) -> (r: Option<Interval>)
    requires
        iv@.wf(),
    ensures
        r.deep_view() == bucket_take(iv@, bs as int, be as int, first),
        r matches Some(p) ==> p@.wf(),
{
    if iv.duration == 0 {
        if first {
            if iv.start <= be {
                Some(iv.clone())
            } else {
                None
            }
        } else {
            if bs < iv.start && iv.start <= be {
                Some(iv.clone())
            } else {
                None
            }
        }
    } else {
        iv.clone().clamp(bs, be)
    }
}

/// Collects the bucket's pieces of a whole stream, the executable
/// counterpart of [`bucket_content`].
fn bucket_fill(values: &Vec<Interval>, bs: i64, be: i64, first: bool) -> (r: Vec<Interval>)
    requires
        intervals_wf(values.deep_view()),
    ensures
        r.deep_view() == bucket_content(values.deep_view(), bs as int, be as int, first),
        intervals_wf(r.deep_view()),
{
    let ghost vs = values.deep_view();
    let mut r: Vec<Interval> = Vec::new();
    let mut j: usize = 0;
    let n = values.len();
    proof {
        assert(vs.skip(0) =~= vs);
    }
    while j < n
        invariant
            n == values@.len(),
            0 <= j <= n,
            vs == values.deep_view(),
            intervals_wf(vs),
            intervals_wf(r.deep_view()),
            bucket_content(vs, bs as int, be as int, first) == r.deep_view() + bucket_content(
                vs.skip(j as int),
                bs as int,
                be as int,
                first,
            ),
        decreases n - j,
    {
        proof {
            assert(vs.skip(j as int)[0] == vs[j as int]);
            assert(vs.skip(j as int).drop_first() =~= vs.skip(j + 1));
            assert(vs[j as int] == values@[j as int]@);
            assert(vs[j as int].wf());
        }
        let ghost r0 = r.deep_view();
        match bucket_take_one(&values[j], bs, be, first) {
            Some(p) => {
                r.push(p);
                proof {
                    assert(r.deep_view() =~= r0 + seq![bucket_take(
                        vs[j as int],
                        bs as int,
                        be as int,
                        first,
                    ).unwrap()]);
                    assert(r0 + (seq![bucket_take(vs[j as int], bs as int, be as int, first).unwrap()]
                        + bucket_content(vs.skip(j + 1), bs as int, be as int, first)) =~= r.deep_view()
                        + bucket_content(vs.skip(j + 1), bs as int, be as int, first));
                }
            },
            None => {},
        }
        j = j + 1;
    }
    proof {
        assert(vs.skip(n as int).len() == 0);
        assert(bucket_content(vs.skip(n as int), bs as int, be as int, first)
            =~= Seq::<IntervalModel>::empty());
        assert(r.deep_view() + Seq::<IntervalModel>::empty() =~= r.deep_view());
    }
    r
}

/// A piece never lasts longer than the interval it was cut from, so a
/// bucket never holds more time than the stream tracked.
pub proof fn lemma_bucket_content_sum_le(s: Seq<IntervalModel>, bs: int, be: int, first: bool)
    requires
        intervals_wf(s),
    ensures
        0 <= crate::analyze::sum_all(bucket_content(s, bs, be, first)) <= crate::analyze::sum_all(
            s,
        ),
    decreases s.len(),
{
    if s.len() == 0 {
    } else {
        let rest = s.drop_first();
        assert(forall|i: int| 0 <= i < rest.len() ==> rest[i] == s[i + 1]);
        lemma_bucket_content_sum_le(rest, bs, be, first);
        lemma_sum_all_cons(s);
        assert(s[0].wf());
        match bucket_take(s[0], bs, be, first) {
            Some(p) => {
                assert(0 <= p.duration <= s[0].duration);
                let content = bucket_content(s, bs, be, first);
                assert(content == seq![p] + bucket_content(rest, bs, be, first));
                lemma_sum_all_cons_piece(p, bucket_content(rest, bs, be, first));
            },
            None => {},
        }
    }
}

/// Splitting a total off the front of a sum.
proof fn lemma_sum_all_cons(s: Seq<IntervalModel>)
    requires
        s.len() > 0,
    ensures
        crate::analyze::sum_all(s) == s[0].duration + crate::analyze::sum_all(s.drop_first()),
    decreases s.len(),
{
    if s.len() == 1 {
        assert(s.drop_last() =~= Seq::<IntervalModel>::empty());
        assert(s.drop_first() =~= Seq::<IntervalModel>::empty());
        assert(s.last() == s[0]);
    } else {
        let t = s.drop_last();
        assert(t.len() > 0);
        assert(t[0] == s[0]);
        lemma_sum_all_cons(t);
        assert(t.drop_first() =~= s.drop_first().drop_last());
        assert(s.drop_first().len() > 0);
        lemma_sum_all_cons(s.drop_first());
        assert(s.drop_first().last() == s.last());
    }
}

/// The same, with the head piece given.
proof fn lemma_sum_all_cons_piece(p: IntervalModel, rest: Seq<IntervalModel>)
    ensures
        crate::analyze::sum_all(seq![p] + rest) == p.duration + crate::analyze::sum_all(rest),
{
    let s = seq![p] + rest;
    assert(s.len() > 0 && s[0] == p);
    lemma_sum_all_cons(s);
    assert(s.drop_first() =~= rest);
}

/// The pieces falling in a bucket are disjoint sub-spans of `[low, be)`
/// when the stream is chronological and starts no earlier than `low`.
proof fn lemma_bucket_content_within(
    s: Seq<IntervalModel>,
    bs: int,
    be: int,
    first: bool,
    low: int,
)
    requires
        intervals_wf(s),
        chronological(s),
        s.len() > 0 ==> s[0].start >= low,
    ensures
        crate::analyze::sum_all(bucket_content(s, bs, be, first)) <= ({
            let m = if low > bs {
                low
            } else {
                bs
            };
            if be > m {
                be - m
            } else {
                0
            }
        }),
    decreases s.len(),
{
    lemma_bucket_content_sum_le(s, bs, be, first);
    if s.len() > 0 {
        let rest = s.drop_first();
        assert(forall|i: int| 0 <= i < rest.len() ==> rest[i] == s[i + 1]);
        assert(s[0].wf());
        assert(rest.len() > 0 ==> rest[0].start >= s[0].end());
        lemma_bucket_content_within(rest, bs, be, first, s[0].end());
        lemma_bucket_content_sum_le(rest, bs, be, first);
        match bucket_take(s[0], bs, be, first) {
            Some(p) => {
                let content = bucket_content(s, bs, be, first);
                assert(content == seq![p] + bucket_content(rest, bs, be, first));
                lemma_sum_all_cons_piece(p, bucket_content(rest, bs, be, first));
            },
            None => {},
        }
    }
}

/// A bucket never collects more time than its own width: the pieces of a
/// chronological stream falling in `[bs, be)` are disjoint sub-spans of
/// it.
pub proof fn lemma_bucket_within_width(s: Seq<IntervalModel>, bs: int, be: int, first: bool)
    requires
        intervals_wf(s),
        chronological(s),
    ensures
        crate::analyze::sum_all(bucket_content(s, bs, be, first)) <= if be > bs {
            be - bs
        } else {
            0
        },
{
    if s.len() == 0 {
        lemma_bucket_content_sum_le(s, bs, be, first);
    } else {
        let low = if s[0].start < bs {
            s[0].start as int
        } else {
            bs
        };
        lemma_bucket_content_within(s, bs, be, first, low);
    }
}

/// The instant a bucket closes at: the first bucket runs a whole width
/// from its aligned origin, every later one runs a width from where the
/// previous closed, clipped back to local midnight at a day change.
#[verifier::opaque]
pub open spec fn bucket_close(first: bool, start: int, width: int, off: int) -> int {
    if first {
        start + width
    } else {
        spec_bucket_end(start, width, off)
    }
}

/// Replays a stream of intervals into consecutive buckets: each output
/// pair is a bucket start and the pieces of the stream that fall in that
/// bucket, buckets running without holes from the calendar-aligned origin
/// of the first interval until the stream's last end is covered.
///
/// Intervals that overlap their predecessor — which a well-formed store
/// never produces — are defensively discarded first.
#[verifier::rlimit(100)]
pub fn sliding_interval_grouping(
    values: Vec<Interval>,
    scale: &SlidingInterval,
    offset_seconds: i32,
) -> (r: Vec<(i64, Vec<Interval>)>)
    requires
        scale.wf(),
        -86400 <= offset_seconds <= 86400,
        intervals_wf(values.deep_view()),
    ensures
        values@.len() == 0 ==> r@.len() == 0,
        chronological(values.deep_view()) ==> drop_overlapping(
            values.deep_view(),
            -MAX_INSTANT - 1,
        ) == values.deep_view(),
        values@.len() > 0 ==> ({
            let ks = drop_overlapping(values.deep_view(), -MAX_INSTANT - 1);
            let w = scale.width_seconds();
            let off = offset_seconds as int;
            let n = r@.len() as int;
            &&& n >= 1
            &&& r@[0].0 as int == spec_clean_start(ks[0].start, off, *scale)
            &&& forall|k: int|
                1 <= k < n ==> (#[trigger] r@[k]).0 as int == bucket_close(
                    k == 1,
                    r@[k - 1].0 as int,
                    w,
                    off,
                )
            &&& forall|k: int|
                0 <= k < n ==> (#[trigger] r@[k]).1.deep_view() == bucket_content(
                    ks,
                    r@[k].0 as int,
                    bucket_close(k == 0, r@[k].0 as int, w, off),
                    k == 0,
                )
            &&& bucket_close(n == 1, r@[n - 1].0 as int, w, off) >= ks.last().end()
            &&& forall|k: int|
                0 <= k < n - 1 ==> bucket_close(k == 0, (#[trigger] r@[k]).0 as int, w, off)
                    < ks.last().end()
        }),
{
    let ghost vs = values.deep_view();
    let ghost low0: int = -MAX_INSTANT - 1;
    proof {
        if chronological(vs) {
            if vs.len() > 0 {
                assert(vs[0] == values@[0]@);
                assert(vs[0].wf());
            }
            lemma_drop_overlapping_id(vs, low0);
        }
    }
    let mut r: Vec<(i64, Vec<Interval>)> = Vec::new();
    if values.len() == 0 {
        return r;
    }
    proof {
        assert(vs[0] == values@[0]@);
        lemma_drop_overlapping_props(vs, low0);
    }
    let kept = keep_ordered(values);
    let ghost ks = kept.deep_view();
    let w = scale.as_duration();
    let off = offset_seconds;
    let first_start = kept[0].start;
    let last_idx = kept.len() - 1;
    proof {
        assert(ks[last_idx as int] == kept@[last_idx as int]@);
        assert(ks[last_idx as int].wf());
    }
    let last_end = kept[last_idx].end();
    proof {
        assert(ks[0] == kept@[0]@ && ks[last_idx as int] == kept@[last_idx as int]@);
        assert(ks[0].wf() && ks.last().wf());
        assert(ks.last() == ks[last_idx as int]);
        assert(ks[0].start <= ks.last().end()) by {
            if last_idx > 0 {
                assert(chronological(ks));
                lemma_chronological_mono(ks, 0, last_idx as int);
            }
        }
    }
    let bs0 = clean_time_start(first_start, scale, off);
    let mut bs = bs0;
    let mut first = true;
    loop
        invariant_except_break
            first <==> r@.len() == 0,
            r@.len() == 0 ==> bs == bs0,
            r@.len() > 0 ==> bs as int == bucket_close(
                r@.len() == 1,
                r@[r@.len() - 1].0 as int,
                w as int,
                off as int,
            ),
            forall|k: int|
                0 <= k < r@.len() ==> bucket_close(
                    k == 0,
                    (#[trigger] r@[k]).0 as int,
                    w as int,
                    off as int,
                ) < ks.last().end(),
        invariant
            ks == kept.deep_view(),
            intervals_wf(ks),
            ks.len() > 0,
            ks == drop_overlapping(vs, low0),
            vs.len() > 0,
            w as int == scale.width_seconds(),
            1 <= w <= 604800,
            -86400 <= off <= 86400,
            last_end as int == ks.last().end(),
            -MAX_INSTANT <= first_start as int <= MAX_INSTANT,
            -MAX_INSTANT - 700_000 <= bs as int <= last_end,
            last_end <= MAX_INSTANT,
            bs0 as int == spec_clean_start(ks[0].start, off as int, *scale),
            r@.len() > 0 ==> r@[0].0 == bs0,
            forall|k: int|
                1 <= k < r@.len() ==> (#[trigger] r@[k]).0 as int == bucket_close(
                    k == 1,
                    r@[k - 1].0 as int,
                    w as int,
                    off as int,
                ),
            forall|k: int|
                0 <= k < r@.len() ==> (#[trigger] r@[k]).1.deep_view() == bucket_content(
                    ks,
                    r@[k].0 as int,
                    bucket_close(k == 0, r@[k].0 as int, w as int, off as int),
                    k == 0,
                ),
        ensures
            r@.len() >= 1,
            r@[0].0 == bs0,
            forall|k: int|
                1 <= k < r@.len() ==> (#[trigger] r@[k]).0 as int == bucket_close(
                    k == 1,
                    r@[k - 1].0 as int,
                    w as int,
                    off as int,
                ),
            forall|k: int|
                0 <= k < r@.len() ==> (#[trigger] r@[k]).1.deep_view() == bucket_content(
                    ks,
                    r@[k].0 as int,
                    bucket_close(k == 0, r@[k].0 as int, w as int, off as int),
                    k == 0,
                ),
            bucket_close(r@.len() == 1, r@[r@.len() - 1].0 as int, w as int, off as int)
                >= ks.last().end(),
            forall|k: int|
                0 <= k < r@.len() - 1 ==> bucket_close(
                    k == 0,
                    (#[trigger] r@[k]).0 as int,
                    w as int,
                    off as int,
                ) < ks.last().end(),
        decreases last_end - bs,
    {
        let be = if first {
            bs + w
        } else {
            bucket_end(bs, w, off)
        };
        let content = bucket_fill(&kept, bs, be, first);
        let ghost r0 = r@;
        r.push((bs, content));
        proof {
            assert(r@ == r0.push((bs, content)));
            assert(r@[r@.len() - 1].0 == bs);
            assert(be as int == bucket_close(first, bs as int, w as int, off as int)) by {
                reveal(bucket_close);
            }
        }
        if be >= last_end {
            break ;
        }
        bs = be;
        first = false;
    }
    r
}

/// Starts are monotone along a chronological sequence.
proof fn lemma_chronological_mono(s: Seq<IntervalModel>, i: int, j: int)
    requires
        chronological(s),
        intervals_wf(s),
        0 <= i <= j < s.len(),
    ensures
        s[i].start <= s[j].end(),
    decreases j - i,
{
    if i < j {
        lemma_chronological_mono(s, i, j - 1);
    }
}

} // verus!
