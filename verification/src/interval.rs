//! The interval data model: point-in-time samples, merged usage intervals,
//! and the interval algebra (`end`, `split_by`, `clamp`) that both range
//! clamping and bucket-boundary splitting are built from.

use vstd::prelude::*;

verus! {

/// Largest instant magnitude (in seconds since the Unix epoch) this crate
/// works with.  It generously covers every representable calendar date and
/// leaves enough headroom that sums of an instant and a bucket width, or of
/// two instants, never overflow an `i64`.
pub const MAX_INSTANT: i64 = 8_000_000_000_000;

/// Mathematical model of an [`Interval`]: a half-open span
/// `[start, start + duration)` of constant window, process and AFK state.
pub struct IntervalModel {
    pub window_name: Seq<char>,
    pub process_name: Seq<char>,
    pub start: int,
    pub duration: int,
    pub afk: bool,
}

impl IntervalModel {
    /// Exclusive end of the span.
    pub open spec fn end(self) -> int {
        self.start + self.duration
    }

    /// Well-formed: non-negative length, and both endpoints within the
    /// instant range the crate supports.
    pub open spec fn wf(self) -> bool {
        &&& 0 <= self.duration
        &&& -MAX_INSTANT <= self.start
        &&& self.end() <= MAX_INSTANT
    }

    /// The aggregation identity of an interval: two intervals describe the
    /// same activity exactly when these three fields agree.
    pub open spec fn key(self) -> (Seq<char>, Seq<char>, bool) {
        (self.window_name, self.process_name, self.afk)
    }

    /// Partition at instant `t`: the part strictly before `t` and the part
    /// from `t` on.  An interval entirely on one side comes back whole on
    /// that side.
    pub open spec fn split(self, t: int) -> (Option<IntervalModel>, Option<IntervalModel>) {
        if t < self.start {
            (None, Some(self))
        } else if t >= self.end() {
            (Some(self), None)
        } else {
            (
                Some(IntervalModel { duration: t - self.start, ..self }),
                Some(IntervalModel { start: t, duration: self.end() - t, ..self }),
            )
        }
    }

    /// The part of the interval that lies within `[from, to)`:
    /// everything before `from` is cut off, then everything from `to` on.
    pub open spec fn clamp(self, from: int, to: int) -> Option<IntervalModel> {
        match self.split(from).1 {
            None => None,
            Some(after) => after.split(to).0,
        }
    }
}

/// A single point-in-time observation handed in by the collector.
#[derive(Debug, PartialEq)]
pub struct Sample {
    pub window_name: String,
    /// Full path to the executable owning the window.
    pub process_name: String,
    pub afk: bool,
    /// Seconds since the Unix epoch.
    pub timestamp: i64,
}

/// Mathematical model of a [`Sample`].
pub struct SampleModel {
    pub window_name: Seq<char>,
    pub process_name: Seq<char>,
    pub afk: bool,
    pub timestamp: int,
}

impl SampleModel {
    /// A sample's timestamp lies within the supported instant range.
    pub open spec fn wf(self) -> bool {
        -MAX_INSTANT <= self.timestamp <= MAX_INSTANT
    }

    /// The aggregation identity of the observation.
    pub open spec fn key(self) -> (Seq<char>, Seq<char>, bool) {
        (self.window_name, self.process_name, self.afk)
    }
}

impl View for Sample {
    type V = SampleModel;

    open spec fn view(&self) -> SampleModel {
        SampleModel {
            window_name: self.window_name@,
            process_name: self.process_name@,
            afk: self.afk,
            timestamp: self.timestamp as int,
        }
    }
}

impl DeepView for Sample {
    type V = SampleModel;

    open spec fn deep_view(&self) -> SampleModel {
        self.view()
    }
}

/// A merged span of constant `(window_name, process_name, afk)` state: the
/// unit of persistence and of aggregation.  `duration` is only ever
/// extended; a change of state always produces a new interval.
#[derive(Debug, PartialEq)]
pub struct Interval {
    pub window_name: String,
    /// Full path to the executable owning the window.
    pub process_name: String,
    /// Seconds since the Unix epoch.
    pub start: i64,
    /// Non-negative length in seconds.
    pub duration: i64,
    pub afk: bool,
}

impl View for Interval {
    type V = IntervalModel;

    open spec fn view(&self) -> IntervalModel {
        IntervalModel {
            window_name: self.window_name@,
            process_name: self.process_name@,
            start: self.start as int,
            duration: self.duration as int,
            afk: self.afk,
        }
    }
}

impl DeepView for Interval {
    type V = IntervalModel;

    open spec fn deep_view(&self) -> IntervalModel {
        self.view()
    }
}

impl Clone for Interval {
    fn clone(&self) -> (r: Self)
        ensures
            r@ == self@,
    {
        Interval {
            window_name: self.window_name.clone(),
            process_name: self.process_name.clone(),
            start: self.start,
            duration: self.duration,
            afk: self.afk,
        }
    }
}

impl Clone for Sample {
    fn clone(&self) -> (r: Self)
        ensures
            r@ == self@,
    {
        Sample {
            window_name: self.window_name.clone(),
            process_name: self.process_name.clone(),
            afk: self.afk,
            timestamp: self.timestamp,
        }
    }
}

impl Interval {
    /// Exclusive end of the interval.
    pub fn end(&self) -> (r: i64)
        requires
            self@.wf(),
        ensures
            r as int == self@.end(),
    {
        self.start + self.duration
    }

    /// Moves the end of the interval to `v` by adjusting its duration.
    pub fn set_end(&mut self, v: i64)
        requires
            old(self)@.wf(),
            old(self)@.start <= v <= MAX_INSTANT,
        ensures
            final(self)@ == (IntervalModel { duration: v - old(self)@.start, ..old(self)@ }),
            final(self)@.wf(),
            final(self)@.end() == v,
    {
        self.duration = v - self.start;
    }

    /// Partitions the interval at instant `t` into the part before `t` and
    /// the part from `t` on.  Whenever `t` falls inside the span, both
    /// halves exist, their durations sum to the original duration, and
    /// `before.end() == after.start == t`.
    pub fn split_by(self, t: i64) -> (r: (Option<Interval>, Option<Interval>))
        requires
            self@.wf(),
        ensures
            r.0.deep_view() == self@.split(t as int).0,
            r.1.deep_view() == self@.split(t as int).1,
            r.0 is Some ==> r.0.unwrap()@.wf(),
            r.1 is Some ==> r.1.unwrap()@.wf(),
            self@.start <= t < self@.end() ==> {
                &&& r.0 is Some
                &&& r.1 is Some
                &&& r.0.unwrap()@.duration + r.1.unwrap()@.duration == self@.duration
                &&& r.0.unwrap()@.end() == t
                &&& r.1.unwrap()@.start == t
                &&& r.0.unwrap()@.key() == self@.key()
                &&& r.1.unwrap()@.key() == self@.key()
            },
    {
        let end = self.end();
        if t < self.start {
            (None, Some(self))
        } else if t >= end {
            (Some(self), None)
        } else {
            let before = Interval {
                window_name: self.window_name.clone(),
                process_name: self.process_name.clone(),
                start: self.start,
                duration: t - self.start,
                afk: self.afk,
            };
            let after = Interval {
                window_name: self.window_name,
                process_name: self.process_name,
                start: t,
                duration: end - t,
                afk: self.afk,
            };
            (Some(before), Some(after))
        }
    }

    /// The part of the interval that falls within `[from, to)`, or `None`
    /// when nothing of it does.  The result is `None` exactly when the
    /// interval ends at or before `from`, or `to` lies strictly before
    /// everything that survives the cut at `from`.
    pub fn clamp(self, from: i64, to: i64) -> (r: Option<Interval>)
        requires
            self@.wf(),
        ensures
            r.deep_view() == self@.clamp(from as int, to as int),
            r is Some ==> r.unwrap()@.wf(),
            r is None <==> (self@.end() <= from
                || to < if self@.start >= from { self@.start } else { from as int }),
            self@.end() <= from || to <= self@.start ==> r is None || r.unwrap()@.duration == 0,
            from <= self@.start && self@.end() <= to && from < self@.end() ==> r.deep_view()
                == Some(self@),
    {
        match self.split_by(from).1 {
            None => None,
            Some(after) => after.split_by(to).0,
        }
    }

    /// A copy of the interval with the given duration.
    pub fn with_duration(self, duration: i64) -> (r: Self)
        ensures
            r@ == (IntervalModel { duration: duration as int, ..self@ }),
    {
        Self { duration, ..self }
    }

    /// A copy of the interval with the given start.
    pub fn with_start(self, start: i64) -> (r: Self)
        ensures
            r@ == (IntervalModel { start: start as int, ..self@ }),
    {
        Self { start, ..self }
    }
}

/// An interval wholly outside `[from, to)` — ending at or before `from`,
/// or starting strictly after `to` — clamps to nothing.  (An interval
/// starting exactly at `to` survives as a zero-length sliver instead.)
pub proof fn lemma_clamp_outside(m: IntervalModel, from: int, to: int)
    requires
        m.wf(),
        m.end() <= from || to < m.start,
    ensures
        m.clamp(from, to) is None,
{
}

/// An interval wholly inside `[from, to)`, with `from` strictly before
/// its end, clamps to itself unchanged.
pub proof fn lemma_clamp_inside(m: IntervalModel, from: int, to: int)
    requires
        m.wf(),
        from <= m.start,
        m.end() <= to,
        from < m.end(),
    ensures
        m.clamp(from, to) == Some(m),
{
}

/// The parts of a stream of intervals that fall within `[from, to)`, in
/// order.
pub open spec fn clamp_seq(s: Seq<IntervalModel>, from: int, to: int) -> Seq<IntervalModel>
    decreases s.len(),
{
    if s.len() == 0 {
        Seq::empty()
    } else {
        match s[0].clamp(from, to) {
            Some(c) => seq![c] + clamp_seq(s.drop_first(), from, to),
            None => clamp_seq(s.drop_first(), from, to),
        }
    }
}

/// Clamps every interval of a stream to `[from, to)` and drops the ones
/// that fall entirely outside, the executable counterpart of
/// [`clamp_seq`]: the per-day read path of a ranged query.
pub fn clamp_all(intervals: Vec<Interval>, from: i64, to: i64) -> (r: Vec<Interval>)
    requires
        forall|i: int| 0 <= i < intervals@.len() ==> (#[trigger] intervals.deep_view()[i]).wf(),
    ensures
        r.deep_view() == clamp_seq(intervals.deep_view(), from as int, to as int),
        forall|i: int| 0 <= i < r@.len() ==> (#[trigger] r.deep_view()[i]).wf(),
{
    let ghost vs = intervals.deep_view();
    let n = intervals.len();
    let mut r: Vec<Interval> = Vec::new();
    let mut j: usize = 0;
    proof {
        assert(vs.skip(0) =~= vs);
    }
    while j < n
        invariant
            n == intervals@.len(),
            0 <= j <= n,
            vs == intervals.deep_view(),
            forall|i: int| 0 <= i < vs.len() ==> (#[trigger] vs[i]).wf(),
            forall|i: int| 0 <= i < r@.len() ==> (#[trigger] r.deep_view()[i]).wf(),
            clamp_seq(vs, from as int, to as int) == r.deep_view() + clamp_seq(
                vs.skip(j as int),
                from as int,
                to as int,
            ),
        decreases n - j,
    {
        proof {
            assert(vs.skip(j as int)[0] == vs[j as int]);
            assert(vs.skip(j as int).drop_first() =~= vs.skip(j + 1));
            assert(vs[j as int] == intervals@[j as int]@);
            assert(vs[j as int].wf());
        }
        let ghost r0 = r.deep_view();
        match intervals[j].clone().clamp(from, to) {
            Some(c) => {
                r.push(c);
                proof {
                    assert(r.deep_view() =~= r0 + seq![vs[j as int].clamp(from as int, to as int).unwrap()]);
                    assert(r0 + (seq![vs[j as int].clamp(from as int, to as int).unwrap()]
                        + clamp_seq(vs.skip(j + 1), from as int, to as int)) =~= r.deep_view()
                        + clamp_seq(vs.skip(j + 1), from as int, to as int));
                }
            },
            None => {},
        }
        j = j + 1;
    }
    proof {
        assert(vs.skip(n as int).len() == 0);
        assert(clamp_seq(vs.skip(n as int), from as int, to as int)
            =~= Seq::<IntervalModel>::empty());
        assert(r.deep_view() + Seq::<IntervalModel>::empty() =~= r.deep_view());
    }
    r
}

} // verus!
