//! The append path of the record store, as a transformation of file
//! content: find the physical last line, read it back as the carried
//! interval (a torn or corrupted last line counts as none), collapse it
//! with the new samples, and rewrite from the start of that last line.
//!
//! The I/O shell seeks, locks and writes; everything it writes is computed
//! here.  After a rewrite the file must be truncated to the new length:
//! when the merged records serialize shorter than what they replace, stale
//! bytes would otherwise survive past the end of the new content.

use vstd::prelude::*;

use crate::codec::{
    render_records, serialize_records, spec_parse_record, parse_record,
};
use crate::collapse::{
    collapse_records, collapse_seq, follows_carried, samples_sorted, samples_wf,
};
use crate::interval::{IntervalModel, Sample, SampleModel, MAX_INSTANT};

verus! {

/// Index where the physical last line of the content begins: right after
/// the last line feed that is not the content's final character (the final
/// character is skipped so that a file ending in a line feed still has its
/// last record found).
pub open spec fn spec_last_line_start(s: Seq<char>) -> int
    decreases s.len(),
{
    if s.len() <= 1 {
        0
    } else if s[s.len() - 2] == '\n' {
        s.len() - 1
    } else {
        spec_last_line_start(s.take(s.len() - 1))
    }
}

/// Strips line terminators from the end of a line.
pub open spec fn trim_line_end(l: Seq<char>) -> Seq<char>
    decreases l.len(),
{
    if l.len() > 0 && (l.last() == '\n' || l.last() == '\r') {
        trim_line_end(l.drop_last())
    } else {
        l
    }
}

/// The interval carried over from the content's physical last line, if
/// that line is a well-formed record.
pub open spec fn carried_of(content: Seq<char>) -> Option<IntervalModel> {
    spec_parse_record(trim_line_end(content.skip(spec_last_line_start(content))))
}

/// A batch of samples the store accepts against this content: timestamps
/// in range and in order, and none earlier than the end of the interval
/// already on disk that they would be merged onto.
pub open spec fn can_append(content: Seq<char>, samples: Seq<SampleModel>) -> bool {
    &&& samples_wf(samples)
    &&& samples_sorted(samples)
    &&& follows_carried(carried_of(content), samples)
}

/// The file content after an append: everything before the last line kept
/// as it is, and the collapse of the carried interval with the new samples
/// rendered in its place.
pub open spec fn appended_content(content: Seq<char>, samples: Seq<SampleModel>) -> Seq<char> {
    content.take(spec_last_line_start(content)) + render_records(
        collapse_seq(carried_of(content), samples),
    )
}

/// Index where the physical last line begins, the executable counterpart
/// of [`spec_last_line_start`].
pub fn last_line_start(s: &Vec<char>) -> (r: usize)
    ensures
        r as int == spec_last_line_start(s@),
        r <= s@.len(),
{
    let n = s.len();
    if n <= 1 {
        return 0;
    }
    proof {
        assert(s@.take(n as int) =~= s@);
    }
    let mut j: usize = n;
    while j > 1 && s[j - 2] != '\n'
        invariant
            n == s@.len(),
            1 <= j <= n,
            spec_last_line_start(s@) == spec_last_line_start(s@.take(j as int)),
        decreases j,
    {
        proof {
            let t = s@.take(j as int);
            assert(t.len() == j);
            assert(t[j - 2] == s@[j - 2]);
            assert(t.take(j - 1) =~= s@.take(j - 1));
        }
        j = j - 1;
    }
    if j == 1 {
        proof {
            assert(s@.take(1).len() == 1);
        }
        0
    } else {
        proof {
            let t = s@.take(j as int);
            assert(t[j - 2] == s@[j - 2]);
        }
        j - 1
    }
}

/// Pairwise order follows from consecutive order.
proof fn lemma_ts_mono(s: Seq<SampleModel>, i: int, j: int)
    requires
        forall|k: int| 1 <= k < s.len() ==> (#[trigger] s[k]).timestamp >= s[k - 1].timestamp,
        0 <= i <= j < s.len(),
    ensures
        s[i].timestamp <= s[j].timestamp,
    decreases j - i,
{
    if i < j {
        lemma_ts_mono(s, i, j - 1);
    }
}

/// The result of computing one append against existing file content.
pub struct AppendPlan {
    /// The full new content of the file.  The file must be truncated to
    /// exactly this length after writing, in case the rewritten last
    /// record is shorter than what it replaces.
    pub content: Vec<char>,
    /// Where the new content differs from the old: everything before
    /// `rewrite_from` is unchanged, so a writer may seek there and write
    /// only the rest.
    pub rewrite_from: usize,
}

/// Computes the content of a record file after appending a batch of
/// samples: the physical last line is read back as the carried interval
/// (a line that does not parse — a torn write from a crash — counts as no
/// carried interval), the collapse engine merges it with the samples, and
/// the result replaces the last line.
///
/// Returns `None` exactly when the batch cannot be stored against this
/// content: a timestamp out of range or out of order, or a first sample
/// that predates the end of the interval on disk (storing it would
/// corrupt the record's non-negative duration).  The caller drops the
/// batch and reports the failure; the file is left as it was.
pub fn append_to_content(content: &Vec<char>, samples: Vec<Sample>) -> (r: Option<AppendPlan>)
    ensures
        r is Some <==> can_append(content@, samples.deep_view()),
        r matches Some(plan) ==> {
            &&& plan.content@ == appended_content(content@, samples.deep_view())
            &&& plan.rewrite_from as int == spec_last_line_start(content@)
            &&& plan.content@.take(plan.rewrite_from as int) == content@.take(
                plan.rewrite_from as int,
            )
        },
{
    let ghost sample_models = samples.deep_view();
    let lls = last_line_start(content);
    let n = content.len();
    let mut line: Vec<char> = Vec::new();
    let mut i: usize = lls;
    while i < n
        invariant
            n == content@.len(),
            lls <= i <= n,
            line@ == content@.subrange(lls as int, i as int),
        decreases n - i,
    {
        let c = content[i];
        line.push(c);
        proof {
            assert(content@.subrange(lls as int, i + 1) =~= content@.subrange(
                lls as int,
                i as int,
            ).push(content@[i as int]));
        }
        i = i + 1;
    }
    proof {
        assert(content@.subrange(lls as int, n as int) =~= content@.skip(lls as int));
    }
    loop
        invariant
            trim_line_end(content@.skip(spec_last_line_start(content@))) == trim_line_end(line@),
        ensures
            trim_line_end(content@.skip(spec_last_line_start(content@))) == trim_line_end(line@),
            line@.len() == 0 || (line@.last() != '\n' && line@.last() != '\r'),
        decreases line@.len(),
    {
        let len = line.len();
        if len == 0 {
            break ;
        }
        let l = line[len - 1];
        if l != '\n' && l != '\r' {
            break ;
        }
        let ghost before = line@;
        line.pop();
        proof {
            assert(line@ =~= before.drop_last());
        }
    }
    let carried = parse_record(&line);
    proof {
        assert(trim_line_end(line@) == line@);
        assert(carried.deep_view() == carried_of(content@));
    }

    // Validate the batch: in-range, ordered, and not predating the
    // carried interval.
    let m = samples.len();
    let mut k: usize = 0;
    while k < m
        invariant
            m == samples@.len(),
            0 <= k <= m,
            sample_models == samples.deep_view(),
            forall|j: int| 0 <= j < k ==> (#[trigger] sample_models[j]).wf(),
            forall|j: int|
                1 <= j < k ==> (#[trigger] sample_models[j]).timestamp >= sample_models[
                    j - 1
                ].timestamp,
        decreases m - k,
    {
        proof {
            assert(sample_models[k as int] == samples@[k as int]@);
        }
        let t = samples[k].timestamp;
        if t < -MAX_INSTANT || t > MAX_INSTANT {
            proof {
                assert(!(sample_models[k as int]).wf());
            }
            return None;
        }
        if k > 0 {
            proof {
                assert(sample_models[k - 1] == samples@[k - 1]@);
            }
            if samples[k - 1].timestamp > t {
                proof {
                    assert(!samples_sorted(sample_models));
                }
                return None;
            }
        }
        k = k + 1;
    }
    proof {
        assert(samples_wf(sample_models));
        assert forall|a: int, b: int|
            0 <= a <= b < sample_models.len() implies (#[trigger] sample_models[a]).timestamp
            <= (#[trigger] sample_models[b]).timestamp by {
            lemma_ts_mono(sample_models, a, b);
        }
        assert(samples_sorted(sample_models));
    }
    if let Some(c) = &carried {
        if samples.len() > 0 {
            proof {
                assert(sample_models[0] == samples@[0]@);
            }
            if samples[0].timestamp < c.end() {
                proof {
                    assert(!follows_carried(carried_of(content@), sample_models));
                }
                return None;
            }
        }
    }
    proof {
        assert(follows_carried(carried_of(content@), sample_models));
    }

    let collapsed = collapse_records(carried, samples);
    let rendered = serialize_records(&collapsed);
    let mut out: Vec<char> = Vec::new();
    let mut p: usize = 0;
    while p < lls
        invariant
            lls <= content@.len(),
            0 <= p <= lls,
            out@ == content@.take(p as int),
        decreases lls - p,
    {
        let c = content[p];
        out.push(c);
        proof {
            assert(content@.take(p + 1) =~= content@.take(p as int).push(content@[p as int]));
        }
        p = p + 1;
    }
    let mut rendered = rendered;
    out.append(&mut rendered);
    proof {
        assert(out@ == appended_content(content@, sample_models));
        assert(out@.take(lls as int) =~= content@.take(lls as int));
    }
    Some(AppendPlan { content: out, rewrite_from: lls })
}

} // verus!
