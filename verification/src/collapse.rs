//! The collapse engine: folds an ordered run of samples (optionally seeded
//! with the last interval already on disk) into a minimal ordered sequence
//! of intervals, bridging sub-threshold gaps between consecutive samples.

use vstd::prelude::*;

use crate::interval::{Interval, IntervalModel, Sample, SampleModel, MAX_INSTANT};

verus! {

/// Gap (in seconds) below which consecutive observations are considered
/// continuous.  Polling jitter between ticks is bridged; a real gap such as
/// sleep or a long pause before the first new sample is not.
pub const MERGE_GAP_SECONDS: i64 = 2;

/// The zero-duration interval seeded from one sample.
pub open spec fn interval_of_sample(s: SampleModel) -> IntervalModel {
    IntervalModel {
        window_name: s.window_name,
        process_name: s.process_name,
        start: s.timestamp,
        duration: 0,
        afk: s.afk,
    }
}

/// All samples in the sequence carry timestamps in the supported range.
pub open spec fn samples_wf(s: Seq<SampleModel>) -> bool {
    forall|i: int| 0 <= i < s.len() ==> s[i].wf()
}

/// Timestamps are non-decreasing.
pub open spec fn samples_sorted(s: Seq<SampleModel>) -> bool {
    forall|i: int, j: int| 0 <= i <= j < s.len() ==> s[i].timestamp <= s[j].timestamp
}

/// New samples never predate the end of the interval they are merged onto:
/// whatever is already on disk ended before the first new observation.
pub open spec fn follows_carried(carried: Option<IntervalModel>, s: Seq<SampleModel>) -> bool {
    (carried matches Some(c) && s.len() > 0) ==> carried.unwrap().end() <= s[0].timestamp
}

/// One step of the collapse fold: how the output list reacts to one sample.
/// Matching state within the merge gap extends the last interval; a state
/// change within the gap starts a new interval anchored at the last end (so
/// no tracked time is lost to polling jitter); anything else starts a new
/// zero-duration interval at the sample's own timestamp.
pub open spec fn collapse_step(acc: Seq<IntervalModel>, s: SampleModel) -> Seq<IntervalModel> {
    if acc.len() > 0 {
        let last = acc.last();
        if last.key() == s.key() && s.timestamp - last.end() < MERGE_GAP_SECONDS {
            acc.update(acc.len() - 1, IntervalModel { duration: s.timestamp - last.start, ..last })
        } else if s.timestamp - last.end() < MERGE_GAP_SECONDS {
            acc.push(IntervalModel { start: last.end(), ..interval_of_sample(s) })
        } else {
            acc.push(interval_of_sample(s))
        }
    } else {
        acc.push(interval_of_sample(s))
    }
}

/// The collapse of a whole sample sequence, seeded with the carried
/// interval when there is one.
pub open spec fn collapse_seq(
    carried: Option<IntervalModel>,
    samples: Seq<SampleModel>,
) -> Seq<IntervalModel>
    decreases samples.len(),
{
    if samples.len() == 0 {
        match carried {
            Some(c) => seq![c],
            None => Seq::empty(),
        }
    } else {
        collapse_step(collapse_seq(carried, samples.drop_last()), samples.last())
    }
}

/// Structural facts about the collapse that every consumer leans on: the
/// output is well-formed, it is empty only when there was no input at all,
/// its last interval never ends after the last sample, and the seed
/// interval's identity is kept at the front.
pub proof fn lemma_collapse_seq_props(carried: Option<IntervalModel>, samples: Seq<SampleModel>)
    requires
        carried matches Some(c) ==> c.wf(),
        samples_wf(samples),
        samples_sorted(samples),
        follows_carried(carried, samples),
    ensures
        ({
            let r = collapse_seq(carried, samples);
            &&& (r.len() == 0 <==> carried is None && samples.len() == 0)
            &&& forall|i: int| 0 <= i < r.len() ==> (#[trigger] r[i]).wf()
            &&& samples.len() > 0 ==> r.last().end() <= samples.last().timestamp
            &&& carried matches Some(c) ==> r.len() > 0 && r[0].start == c.start
                && r[0].key() == c.key()
        }),
    decreases samples.len(),
{
    let r = collapse_seq(carried, samples);
    if samples.len() == 0 {
    } else {
        let prefix = samples.drop_last();
        let m = samples.last();
        assert(samples_wf(prefix) && samples_sorted(prefix)) by {
            assert(forall|i: int| 0 <= i < prefix.len() ==> prefix[i] == samples[i]);
        }
        assert(follows_carried(carried, prefix));
        lemma_collapse_seq_props(carried, prefix);
        let acc = collapse_seq(carried, prefix);
        if prefix.len() > 0 {
            assert(prefix.last().timestamp <= m.timestamp);
        } else {
            if carried is Some {
                assert(acc.last().end() <= m.timestamp);
            }
        }
        assert(r == collapse_step(acc, m));
    }
}

/// Creates the minimal interval sequence for one run of samples: the
/// executable counterpart of [`collapse_seq`].
///
/// `last_interval` is the interval carried over from disk; the samples must
/// be in chronological order and start no earlier than its end.
pub fn collapse_records(last_interval: Option<Interval>, usage_records: Vec<Sample>) -> (r: Vec<
    Interval,
>)
    requires
        last_interval matches Some(c) ==> c@.wf(),
        samples_wf(usage_records.deep_view()),
        samples_sorted(usage_records.deep_view()),
        follows_carried(last_interval.deep_view(), usage_records.deep_view()),
    ensures
        r.deep_view() == collapse_seq(last_interval.deep_view(), usage_records.deep_view()),
        forall|i: int| 0 <= i < r@.len() ==> (#[trigger] r.deep_view()[i]).wf(),
{
    let ghost carried_model = last_interval.deep_view();
    let ghost all = usage_records.deep_view();
    let mut intervals: Vec<Interval> = Vec::new();
    if let Some(last) = last_interval {
        intervals.push(last);
    }
    assert(intervals.deep_view() =~= collapse_seq(carried_model, all.take(0)));

    let n = usage_records.len();
    let mut j: usize = 0;
    while j < n
        invariant
            n == usage_records@.len(),
            0 <= j <= n,
            carried_model matches Some(c) ==> c.wf(),
            samples_wf(all),
            samples_sorted(all),
            follows_carried(carried_model, all),
            all == usage_records.deep_view(),
            intervals.deep_view() == collapse_seq(carried_model, all.take(j as int)),
        decreases n - j,
    {
        let record = usage_records[j].clone();
        let ghost prefix = all.take(j as int);
        let ghost acc = collapse_seq(carried_model, prefix);
        proof {
            assert(samples_wf(prefix) && samples_sorted(prefix)) by {
                assert(forall|i: int| 0 <= i < prefix.len() ==> prefix[i] == all[i]);
            }
            lemma_collapse_seq_props(carried_model, prefix);
            if acc.len() > 0 {
                if prefix.len() > 0 {
                    assert(acc.last().end() <= prefix.last().timestamp);
                    assert(prefix.last() == all[j - 1]);
                    assert(all[j - 1].timestamp <= all[j as int].timestamp);
                } else {
                    assert(acc.last() == carried_model.unwrap());
                }
                assert(acc.last().end() <= record@.timestamp);
            }
            assert(all.take(j + 1).drop_last() =~= prefix);
            assert(all.take(j + 1).last() == all[j as int]);
        }
        let len = intervals.len();
        if len > 0 {
            let last_end = intervals[len - 1].end();
            let same_key = intervals[len - 1].window_name == record.window_name
                && intervals[len - 1].process_name == record.process_name
                && intervals[len - 1].afk == record.afk;
            if same_key && record.timestamp - last_end < MERGE_GAP_SECONDS {
                let mut last = intervals.pop().unwrap();
                last.set_end(record.timestamp);
                intervals.push(last);
                proof {
                    assert(intervals.deep_view() =~= collapse_step(acc, record@));
                }
            } else if record.timestamp - last_end < MERGE_GAP_SECONDS {
                intervals.push(
                    Interval {
                        window_name: record.window_name,
                        process_name: record.process_name,
                        start: last_end,
                        duration: 0,
                        afk: record.afk,
                    },
                );
                proof {
                    assert(intervals.deep_view() =~= collapse_step(acc, record@));
                }
            } else {
                intervals.push(
                    Interval {
                        window_name: record.window_name,
                        process_name: record.process_name,
                        start: record.timestamp,
                        duration: 0,
                        afk: record.afk,
                    },
                );
                proof {
                    assert(intervals.deep_view() =~= collapse_step(acc, record@));
                }
            }
        } else {
            intervals.push(
                Interval {
                    window_name: record.window_name,
                    process_name: record.process_name,
                    start: record.timestamp,
                    duration: 0,
                    afk: record.afk,
                },
            );
            proof {
                assert(intervals.deep_view() =~= collapse_step(acc, record@));
            }
        }
        j = j + 1;
    }
    proof {
        assert(all.take(n as int) =~= all);
        lemma_collapse_seq_props(carried_model, all);
    }
    intervals
}

/// A run of samples that all describe the same activity as the first one.
pub open spec fn same_key_run(samples: Seq<SampleModel>) -> bool {
    forall|i: int| 0 <= i < samples.len() ==> (#[trigger] samples[i]).key() == samples[0].key()
}

/// Consecutive samples lie within the merge gap of each other.
pub open spec fn small_gaps(samples: Seq<SampleModel>) -> bool {
    forall|i: int|
        1 <= i < samples.len() ==> samples[i].timestamp - (#[trigger] samples[i - 1]).timestamp
            < MERGE_GAP_SECONDS
}

/// A run of same-state samples within the merge gap collapses to exactly
/// one interval: seeded with a matching carried interval the run merely
/// extends it, and unseeded it spans first to last timestamp.
pub proof fn lemma_collapse_same_key_run(carried: Option<IntervalModel>, samples: Seq<SampleModel>)
    requires
        carried matches Some(c) ==> c.wf(),
        samples_wf(samples),
        samples_sorted(samples),
        follows_carried(carried, samples),
        samples.len() > 0,
        same_key_run(samples),
        small_gaps(samples),
        carried matches Some(c) ==> c.key() == samples[0].key() && samples[0].timestamp - c.end()
            < MERGE_GAP_SECONDS,
    ensures
        collapse_seq(carried, samples) == match carried {
            None => seq![
                IntervalModel {
                    window_name: samples[0].window_name,
                    process_name: samples[0].process_name,
                    start: samples[0].timestamp,
                    duration: samples.last().timestamp - samples[0].timestamp,
                    afk: samples[0].afk,
                },
            ],
            Some(c) => seq![
                IntervalModel { duration: samples.last().timestamp - c.start, ..c },
            ],
        },
    decreases samples.len(),
{
    let r = collapse_seq(carried, samples);
    if samples.len() == 1 {
        let s = samples[0];
        assert(samples.drop_last() =~= Seq::empty());
        let seed = collapse_seq(carried, samples.drop_last());
        match carried {
            None => {
                assert(seed =~= Seq::<IntervalModel>::empty());
                assert(r =~= seq![interval_of_sample(s)]);
            },
            Some(c) => {
                assert(seed =~= seq![c]);
                assert(s.timestamp - c.end() < MERGE_GAP_SECONDS);
                assert(r =~= seq![c].update(0, IntervalModel { duration: s.timestamp - c.start, ..c }));
                assert(r =~= seq![IntervalModel { duration: s.timestamp - c.start, ..c }]);
            },
        }
    } else {
        let prefix = samples.drop_last();
        let m = samples.last();
        assert(forall|i: int| 0 <= i < prefix.len() ==> prefix[i] == samples[i]);
        lemma_collapse_same_key_run(carried, prefix);
        let acc = collapse_seq(carried, prefix);
        let t_prev = prefix.last().timestamp;
        assert(t_prev == samples[samples.len() - 2].timestamp);
        assert(m.timestamp - t_prev < MERGE_GAP_SECONDS);
        assert(m.key() == samples[0].key());
        match carried {
            None => {
                assert(acc.last().end() == t_prev);
                assert(acc.last().key() == samples[0].key());
                assert(r =~= seq![
                    IntervalModel {
                        window_name: samples[0].window_name,
                        process_name: samples[0].process_name,
                        start: samples[0].timestamp,
                        duration: m.timestamp - samples[0].timestamp,
                        afk: samples[0].afk,
                    },
                ]);
            },
            Some(c) => {
                assert(acc.last().end() == t_prev);
                assert(acc.last().key() == c.key());
                assert(r =~= seq![IntervalModel { duration: m.timestamp - c.start, ..c }]);
            },
        }
    }
}

/// Two same-state observations within the merge gap and no carried
/// interval collapse to a single interval running from the first to the
/// second timestamp.
pub proof fn lemma_collapse_two_samples(s1: SampleModel, s2: SampleModel)
    requires
        s1.wf(),
        s2.wf(),
        s1.key() == s2.key(),
        s1.timestamp < s2.timestamp,
        s2.timestamp - s1.timestamp < MERGE_GAP_SECONDS,
    ensures
        collapse_seq(None, seq![s1, s2]).len() == 1,
        collapse_seq(None, seq![s1, s2])[0].start == s1.timestamp,
        collapse_seq(None, seq![s1, s2])[0].end() == s2.timestamp,
        collapse_seq(None, seq![s1, s2])[0].key() == s1.key(),
{
    let samples = seq![s1, s2];
    assert(samples[0] == s1 && samples[1] == s2);
    lemma_collapse_same_key_run(None, samples);
}

/// Merging a batch into a store seeded with a same-state last interval that
/// the batch follows without a gap yields one interval whose duration is
/// the seed's duration plus the duration the same batch would produce on a
/// fresh store.
pub proof fn lemma_collapse_seeded_merge(c: IntervalModel, samples: Seq<SampleModel>)
    requires
        c.wf(),
        samples_wf(samples),
        samples_sorted(samples),
        samples.len() > 0,
        same_key_run(samples),
        small_gaps(samples),
        c.key() == samples[0].key(),
        c.end() == samples[0].timestamp,
    ensures
        collapse_seq(Some(c), samples).len() == 1,
        collapse_seq(None, samples).len() == 1,
        collapse_seq(Some(c), samples)[0].duration == c.duration + collapse_seq(
            None,
            samples,
        )[0].duration,
{
    lemma_collapse_same_key_run(Some(c), samples);
    lemma_collapse_same_key_run(None, samples);
}

/// The collapse's output is chronological and non-overlapping: each
/// interval starts no earlier than the previous one ends, so a day's file
/// holds its records in strictly chronological order.
pub proof fn lemma_collapse_chronological(carried: Option<IntervalModel>, samples: Seq<SampleModel>)
    requires
        carried matches Some(c) ==> c.wf(),
        samples_wf(samples),
        samples_sorted(samples),
        follows_carried(carried, samples),
    ensures
        ({
            let r = collapse_seq(carried, samples);
            forall|k: int| 1 <= k < r.len() ==> (#[trigger] r[k]).start >= r[k - 1].end()
        }),
    decreases samples.len(),
{
    let r = collapse_seq(carried, samples);
    if samples.len() == 0 {
    } else {
        let prefix = samples.drop_last();
        let m = samples.last();
        assert(forall|i: int| 0 <= i < prefix.len() ==> prefix[i] == samples[i]);
        lemma_collapse_chronological(carried, prefix);
        lemma_collapse_seq_props(carried, prefix);
        let acc = collapse_seq(carried, prefix);
        assert(r == collapse_step(acc, m));
        if acc.len() > 0 {
            if prefix.len() > 0 {
                assert(acc.last().end() <= prefix.last().timestamp);
                assert(prefix.last().timestamp <= m.timestamp);
            }
            assert(acc.last().end() <= m.timestamp);
            if acc.last().key() == m.key() && m.timestamp - acc.last().end()
                < MERGE_GAP_SECONDS {
                let updated = IntervalModel {
                    duration: m.timestamp - acc.last().start,
                    ..acc.last()
                };
                assert(r == acc.update(acc.len() - 1, updated));
                assert(forall|k: int| 0 <= k < r.len() - 1 ==> r[k] == acc[k]);
                assert(r.last().start == acc.last().start);
            } else if m.timestamp - acc.last().end() < MERGE_GAP_SECONDS {
                assert(r == acc.push(
                    IntervalModel { start: acc.last().end(), ..interval_of_sample(m) },
                ));
                assert(forall|k: int| 0 <= k < acc.len() ==> r[k] == acc[k]);
            } else {
                assert(r == acc.push(interval_of_sample(m)));
                assert(forall|k: int| 0 <= k < acc.len() ==> r[k] == acc[k]);
                assert(r.last().start == m.timestamp);
                assert(m.timestamp >= acc.last().end());
            }
        }
    }
}

/// At every step of the collapse, the next sample lies within the merge
/// gap of the end of the interval list built so far (the gap the collapse
/// algorithm itself measures).
pub open spec fn step_gaps_bridged(carried: Option<IntervalModel>, samples: Seq<SampleModel>) -> bool {
    forall|j: int|
        0 <= j < samples.len() && (#[trigger] collapse_seq(carried, samples.take(j))).len() > 0
            ==> samples[j].timestamp - collapse_seq(carried, samples.take(j)).last().end()
            < MERGE_GAP_SECONDS
}

/// When every sample stays within the merge gap of the output built so
/// far, the collapsed intervals abut exactly: each entry starts where the
/// previous one ends, so bridging loses no time and leaves no net gap.
pub proof fn lemma_collapse_bridged_contiguous(
    carried: Option<IntervalModel>,
    samples: Seq<SampleModel>,
)
    requires
        carried matches Some(c) ==> c.wf(),
        samples_wf(samples),
        samples_sorted(samples),
        follows_carried(carried, samples),
        step_gaps_bridged(carried, samples),
    ensures
        ({
            let r = collapse_seq(carried, samples);
            forall|k: int| 1 <= k < r.len() ==> (#[trigger] r[k]).start == r[k - 1].end()
        }),
    decreases samples.len(),
{
    let r = collapse_seq(carried, samples);
    if samples.len() == 0 {
    } else {
        let prefix = samples.drop_last();
        let m = samples.last();
        assert(forall|i: int| 0 <= i < prefix.len() ==> prefix[i] == samples[i]);
        assert(step_gaps_bridged(carried, prefix)) by {
            assert(forall|j: int|
                0 <= j < prefix.len() ==> prefix.take(j) =~= samples.take(j));
        }
        lemma_collapse_bridged_contiguous(carried, prefix);
        let acc = collapse_seq(carried, prefix);
        assert(r == collapse_step(acc, m));
        if acc.len() > 0 {
            assert(samples.take(samples.len() - 1) =~= prefix);
            assert(m.timestamp - acc.last().end() < MERGE_GAP_SECONDS);
            if acc.last().key() == m.key() {
                let updated = IntervalModel {
                    duration: m.timestamp - acc.last().start,
                    ..acc.last()
                };
                assert(r == acc.update(acc.len() - 1, updated));
                assert(forall|k: int| 0 <= k < r.len() - 1 ==> r[k] == acc[k]);
                assert(r.last().start == acc.last().start);
            } else {
                assert(r == acc.push(
                    IntervalModel { start: acc.last().end(), ..interval_of_sample(m) },
                ));
                assert(forall|k: int| 0 <= k < acc.len() ==> r[k] == acc[k]);
            }
        }
    }
}

} // verus!
