//! The usage analyzer: pure aggregation over one bucket's intervals into
//! per-process (or per-process-and-window) totals, with time away from
//! keyboard folded into a synthetic "Inactive" entry unless asked for,
//! a strict percentage floor, and the result sorted by descending
//! duration.
//!
//! Process names are normalized to their final path component at
//! aggregation time only — stored records keep the full path.

use vstd::prelude::*;

use crate::codec::string_of_chars;
use crate::interval::{Interval, IntervalModel};

verus! {

/// The final path component of a process path: everything after the last
/// separator, or the whole string when it has none.
pub open spec fn clean_name(s: Seq<char>) -> Seq<char>
    decreases s.len(),
{
    if s.len() == 0 {
        s
    } else if s.last() == '/' {
        Seq::empty()
    } else {
        clean_name(s.drop_last()) + seq![s.last()]
    }
}

/// A string without separators is its own final component.
proof fn lemma_clean_name_no_slash(s: Seq<char>)
    requires
        forall|i: int| 0 <= i < s.len() ==> s[i] != '/',
    ensures
        clean_name(s) == s,
    decreases s.len(),
{
    if s.len() > 0 {
        assert(forall|i: int| 0 <= i < s.drop_last().len() ==> s.drop_last()[i] == s[i]);
        lemma_clean_name_no_slash(s.drop_last());
        assert(s.drop_last() + seq![s.last()] =~= s);
    }
}

/// The suffix after position `i` is the final component when everything
/// from `i` on is separator-free and a separator (or nothing) precedes it.
pub proof fn lemma_clean_name_suffix(s: Seq<char>, i: int)
    requires
        0 <= i <= s.len(),
        forall|j: int| i <= j < s.len() ==> s[j] != '/',
        i == 0 || s[i - 1] == '/',
    ensures
        clean_name(s) == s.skip(i),
    decreases s.len() - i,
{
    if i == s.len() {
        if i == 0 {
            assert(s.skip(0) =~= s);
        } else {
            assert(s.last() == '/');
            assert(s.skip(i) =~= Seq::<char>::empty());
        }
    } else {
        // peel the last character off both sides
        let p = s.drop_last();
        assert(s.last() != '/');
        assert(forall|j: int| 0 <= j < p.len() ==> p[j] == s[j]);
        lemma_clean_name_suffix(p, i);
        assert(clean_name(s) == clean_name(p) + seq![s.last()]);
        assert(p.skip(i) + seq![s.last()] =~= s.skip(i));
    }
}

/// Normalizes a process path to its final path component, the executable
/// counterpart of [`clean_name`].
pub fn clean_process_name(value: &str) -> (r: String)
    ensures
        r@ == clean_name(value@),
{
    let cs = crate::codec::chars_vec(value);
    let n = cs.len();
    let mut i: usize = n;
    while i > 0 && cs[i - 1] != '/'
        invariant
            n == cs@.len(),
            cs@ == value@,
            0 <= i <= n,
            forall|j: int| i <= j < n ==> cs@[j] != '/',
        decreases i,
    {
        i = i - 1;
    }
    proof {
        lemma_clean_name_suffix(value@, i as int);
    }
    let mut out: Vec<char> = Vec::new();
    let mut j: usize = i;
    while j < n
        invariant
            n == cs@.len(),
            cs@ == value@,
            i <= j <= n,
            out@ == value@.subrange(i as int, j as int),
        decreases n - j,
    {
        let c = cs[j];
        out.push(c);
        proof {
            assert(value@.subrange(i as int, j + 1) =~= value@.subrange(i as int, j as int).push(
                value@[j as int],
            ));
        }
        j = j + 1;
    }
    proof {
        assert(value@.subrange(i as int, n as int) =~= value@.skip(i as int));
    }
    string_of_chars(out)
}

/// Whether an interval is counted under its own name: away-from-keyboard
/// time is unless the caller asked to fold it away.
pub open spec fn eligible(m: IntervalModel, include_afk: bool) -> bool {
    include_afk || !m.afk
}

/// Total duration of all intervals: the bucket's elapsed tracked time,
/// the denominator of the percentage floor.
pub open spec fn sum_all(s: Seq<IntervalModel>) -> int
    decreases s.len(),
{
    if s.len() == 0 {
        0
    } else {
        sum_all(s.drop_last()) + s.last().duration
    }
}

/// Total duration of the intervals folded into the "Inactive" entry.
pub open spec fn afk_total(s: Seq<IntervalModel>, include_afk: bool) -> int
    decreases s.len(),
{
    if s.len() == 0 {
        0
    } else {
        afk_total(s.drop_last(), include_afk) + if eligible(s.last(), include_afk) {
            0
        } else {
            s.last().duration as int
        }
    }
}

/// Total duration of the counted intervals whose normalized process name
/// is `k`.
pub open spec fn keyed_total(s: Seq<IntervalModel>, k: Seq<char>, include_afk: bool) -> int
    decreases s.len(),
{
    if s.len() == 0 {
        0
    } else {
        keyed_total(s.drop_last(), k, include_afk) + if eligible(s.last(), include_afk)
            && clean_name(s.last().process_name) == k {
            s.last().duration as int
        } else {
            0
        }
    }
}

/// Some counted interval has this normalized process name.
pub open spec fn key_present(s: Seq<IntervalModel>, k: Seq<char>, include_afk: bool) -> bool {
    exists|i: int|
        0 <= i < s.len() && eligible(#[trigger] s[i], include_afk) && clean_name(s[i].process_name)
            == k
}

/// The full process path of the first counted interval with this
/// normalized name: the name an aggregated entry displays.
pub open spec fn first_display(s: Seq<IntervalModel>, k: Seq<char>, include_afk: bool) -> Seq<char>
    decreases s.len(),
{
    if s.len() == 0 {
        Seq::empty()
    } else if eligible(s[0], include_afk) && clean_name(s[0].process_name) == k {
        s[0].process_name
    } else {
        first_display(s.drop_first(), k, include_afk)
    }
}

/// The display name of the first counted occurrence, located.
proof fn lemma_first_display_at(s: Seq<IntervalModel>, k: Seq<char>, include_afk: bool, j: int)
    requires
        0 <= j < s.len(),
        eligible(s[j], include_afk),
        clean_name(s[j].process_name) == k,
        forall|i: int|
            0 <= i < j ==> !(eligible(#[trigger] s[i], include_afk) && clean_name(
                s[i].process_name,
            ) == k),
    ensures
        first_display(s, k, include_afk) == s[j].process_name,
    decreases j,
{
    if j > 0 {
        let rest = s.drop_first();
        assert(forall|i: int| 0 <= i < rest.len() ==> rest[i] == s[i + 1]);
        lemma_first_display_at(rest, k, include_afk, j - 1);
    }
}

/// Sums over a prefix never exceed the sum over the whole (durations are
/// non-negative), and every aggregate stays within the whole.
proof fn lemma_sums(s: Seq<IntervalModel>, k: Seq<char>, include_afk: bool)
    requires
        forall|i: int| 0 <= i < s.len() ==> (#[trigger] s[i]).wf(),
    ensures
        0 <= afk_total(s, include_afk) <= sum_all(s),
        0 <= keyed_total(s, k, include_afk) <= sum_all(s),
    decreases s.len(),
{
    if s.len() > 0 {
        assert(forall|i: int| 0 <= i < s.drop_last().len() ==> s.drop_last()[i] == s[i]);
        lemma_sums(s.drop_last(), k, include_afk);
        assert(s.last().wf());
    }
}

/// A prefix sum is bounded by the full sum.
proof fn lemma_sum_all_prefix(s: Seq<IntervalModel>, j: int)
    requires
        forall|i: int| 0 <= i < s.len() ==> (#[trigger] s[i]).wf(),
        0 <= j <= s.len(),
    ensures
        0 <= sum_all(s.take(j)) <= sum_all(s),
    decreases s.len() - j,
{
    if j == s.len() {
        assert(s.take(j) =~= s);
        lemma_sums(s, Seq::empty(), true);
    } else {
        lemma_sum_all_prefix(s, j + 1);
        assert(s.take(j + 1).drop_last() =~= s.take(j));
        assert(s.take(j + 1).last() == s[j]);
        assert(s[j].wf());
        assert(sum_all(s.take(j)) >= 0) by {
            assert(forall|i: int|
                0 <= i < s.take(j).len() ==> (#[trigger] s.take(j)[i]).wf());
            lemma_sums(s.take(j), Seq::empty(), true);
        }
    }
}

/// Total duration of a bucket's intervals, the executable counterpart of
/// [`sum_all`].
pub fn sum_durations(intervals: &Vec<Interval>) -> (r: i64)
    requires
        forall|i: int| 0 <= i < intervals@.len() ==> (#[trigger] intervals.deep_view()[i]).wf(),
        sum_all(intervals.deep_view()) <= i64::MAX,
    ensures
        r as int == sum_all(intervals.deep_view()),
        r >= 0,
{
    let ghost s = intervals.deep_view();
    let n = intervals.len();
    let mut acc: i64 = 0;
    let mut j: usize = 0;
    while j < n
        invariant
            n == intervals@.len(),
            0 <= j <= n,
            s == intervals.deep_view(),
            forall|i: int| 0 <= i < s.len() ==> (#[trigger] s[i]).wf(),
            sum_all(s) <= i64::MAX,
            acc as int == sum_all(s.take(j as int)),
            acc >= 0,
        decreases n - j,
    {
        proof {
            assert(s[j as int] == intervals@[j as int]@);
            assert(s[j as int].wf());
            assert(s.take(j + 1).drop_last() =~= s.take(j as int));
            assert(s.take(j + 1).last() == s[j as int]);
            lemma_sum_all_prefix(s, j + 1);
        }
        acc = acc + intervals[j].duration;
        j = j + 1;
    }
    proof {
        assert(s.take(n as int) =~= s);
    }
    acc
}

/// Time away from keyboard in the bucket, the executable counterpart of
/// [`afk_total`].
fn afk_sum(intervals: &Vec<Interval>, include_afk: bool) -> (r: i64)
    requires
        forall|i: int| 0 <= i < intervals@.len() ==> (#[trigger] intervals.deep_view()[i]).wf(),
        sum_all(intervals.deep_view()) <= i64::MAX,
    ensures
        r as int == afk_total(intervals.deep_view(), include_afk),
        r >= 0,
{
    let ghost s = intervals.deep_view();
    let n = intervals.len();
    let mut acc: i64 = 0;
    let mut j: usize = 0;
    while j < n
        invariant
            n == intervals@.len(),
            0 <= j <= n,
            s == intervals.deep_view(),
            forall|i: int| 0 <= i < s.len() ==> (#[trigger] s[i]).wf(),
            sum_all(s) <= i64::MAX,
            acc as int == afk_total(s.take(j as int), include_afk),
            acc >= 0,
        decreases n - j,
    {
        proof {
            assert(s[j as int] == intervals@[j as int]@);
            assert(s[j as int].wf());
            assert(s.take(j + 1).drop_last() =~= s.take(j as int));
            assert(s.take(j + 1).last() == s[j as int]);
            assert(forall|i: int|
                0 <= i < s.take(j + 1).len() ==> (#[trigger] s.take(j + 1)[i]).wf());
            lemma_sums(s.take(j + 1), Seq::empty(), include_afk);
            lemma_sum_all_prefix(s, j + 1);
        }
        if !(include_afk || !intervals[j].afk) {
            acc = acc + intervals[j].duration;
        }
        j = j + 1;
    }
    proof {
        assert(s.take(n as int) =~= s);
    }
    acc
}

/// Time counted under one normalized process name, the executable
/// counterpart of [`keyed_total`].
fn total_for_key(intervals: &Vec<Interval>, key: &String, include_afk: bool) -> (r: i64)
    requires
        forall|i: int| 0 <= i < intervals@.len() ==> (#[trigger] intervals.deep_view()[i]).wf(),
        sum_all(intervals.deep_view()) <= i64::MAX,
    ensures
        r as int == keyed_total(intervals.deep_view(), key@, include_afk),
        r >= 0,
{
    let ghost s = intervals.deep_view();
    let n = intervals.len();
    let mut acc: i64 = 0;
    let mut j: usize = 0;
    while j < n
        invariant
            n == intervals@.len(),
            0 <= j <= n,
            s == intervals.deep_view(),
            forall|i: int| 0 <= i < s.len() ==> (#[trigger] s[i]).wf(),
            sum_all(s) <= i64::MAX,
            acc as int == keyed_total(s.take(j as int), key@, include_afk),
            acc >= 0,
        decreases n - j,
    {
        proof {
            assert(s[j as int] == intervals@[j as int]@);
            assert(s[j as int].wf());
            assert(s.take(j + 1).drop_last() =~= s.take(j as int));
            assert(s.take(j + 1).last() == s[j as int]);
            assert(forall|i: int|
                0 <= i < s.take(j + 1).len() ==> (#[trigger] s.take(j + 1)[i]).wf());
            lemma_sums(s.take(j + 1), key@, include_afk);
            lemma_sum_all_prefix(s, j + 1);
        }
        let counted = if include_afk || !intervals[j].afk {
            let ck = clean_process_name(self_str(&intervals[j].process_name));
            ck == *key
        } else {
            false
        };
        if counted {
            acc = acc + intervals[j].duration;
        }
        j = j + 1;
    }
    proof {
        assert(s.take(n as int) =~= s);
    }
    acc
}

/// View of a `String` as a string slice.
fn self_str(s: &String) -> (r: &str)
    ensures
        r@ == s@,
{
    s.as_str()
}

/// The position of `key` in the list of keys, if present.
fn find_key(cleans: &Vec<String>, key: &String) -> (r: Option<usize>)
    ensures
        match r {
            Some(i) => i < cleans@.len() && cleans@[i as int]@ == key@,
            None => forall|i: int| 0 <= i < cleans@.len() ==> (#[trigger] cleans@[i])@ != key@,
        },
{
    let n = cleans.len();
    let mut i: usize = 0;
    while i < n
        invariant
            n == cleans@.len(),
            0 <= i <= n,
            forall|j: int| 0 <= j < i ==> (#[trigger] cleans@[j])@ != key@,
        decreases n - i,
    {
        if cleans[i].eq(key) {
            return Some(i);
        }
        i = i + 1;
    }
    None
}

/// One process's share of a bucket: the display name (the full path of
/// its first occurrence, or "Inactive") and the accumulated duration.
#[derive(Debug, PartialEq)]
pub struct ProcessUsage {
    pub process_name: String,
    pub duration: i64,
}

/// The duration an aggregated entry with key `k` reports: the folded
/// away-from-keyboard total for the "Inactive" entry when there is idle
/// time (it replaces any process that happens to share the name), and the
/// per-key total otherwise.
pub open spec fn final_dur(s: Seq<IntervalModel>, k: Seq<char>, include_afk: bool) -> int {
    if k == "Inactive"@ && afk_total(s, include_afk) > 0 {
        afk_total(s, include_afk)
    } else {
        keyed_total(s, k, include_afk)
    }
}

/// The name an aggregated entry with key `k` displays.
pub open spec fn final_display(s: Seq<IntervalModel>, k: Seq<char>, include_afk: bool) -> Seq<
    char,
> {
    if k == "Inactive"@ && afk_total(s, include_afk) > 0 {
        "Inactive"@
    } else {
        first_display(s, k, include_afk)
    }
}

/// The keys the aggregation produces an entry for (before the percentage
/// floor): every normalized name that occurs counted, plus "Inactive"
/// when idle time was folded away.
pub open spec fn listed(s: Seq<IntervalModel>, k: Seq<char>, include_afk: bool) -> bool {
    key_present(s, k, include_afk) || (k == "Inactive"@ && afk_total(s, include_afk) > 0)
}

/// The strict percentage floor: entries at or below
/// `sum_all * min_percentage / 100` are dropped.
pub open spec fn spec_threshold(s: Seq<IntervalModel>, min_percentage: u32) -> int {
    sum_all(s) * min_percentage / 100
}

/// The normalized key of an aggregated entry.
pub open spec fn entry_key(process_name: Seq<char>) -> Seq<char> {
    clean_name(process_name)
}

/// "Inactive" is its own normalized name.
proof fn lemma_inactive_clean()
    ensures
        clean_name("Inactive"@) == "Inactive"@,
{
    reveal_strlit("Inactive");
    lemma_clean_name_no_slash("Inactive"@);
}

/// Sorts entries by strictly descending insertion of maxima: the result
/// holds the same entries (as a multiset) ordered by non-increasing
/// duration.
fn sort_by_duration_desc(entries: Vec<ProcessUsage>) -> (r: Vec<ProcessUsage>)
    ensures
        r@.len() == entries@.len(),
        r@.to_multiset() == entries@.to_multiset(),
        forall|i: int, j: int| 0 <= i <= j < r@.len() ==> r@[i].duration >= r@[j].duration,
{
    broadcast use vstd::seq_lib::group_to_multiset_ensures;
    broadcast use vstd::multiset::group_multiset_axioms;

    let ghost orig = entries@;
    let mut rest = entries;
    let mut out: Vec<ProcessUsage> = Vec::new();
    while rest.len() > 0
        invariant
            out@.to_multiset().add(rest@.to_multiset()) == orig.to_multiset(),
            out@.len() + rest@.len() == orig.len(),
            forall|i: int, j: int| 0 <= i <= j < out@.len() ==> out@[i].duration >= out@[j].duration,
            forall|i: int, j: int|
                0 <= i < out@.len() && 0 <= j < rest@.len() ==> (#[trigger] out@[i]).duration
                    >= (#[trigger] rest@[j]).duration,
        decreases rest@.len(),
    {
        let m = rest.len();
        let mut best: usize = 0;
        let mut i: usize = 1;
        while i < m
            invariant
                m == rest@.len(),
                0 < m,
                0 <= best < i <= m,
                forall|j: int| 0 <= j < i ==> rest@[best as int].duration >= (#[trigger] rest@[j]).duration,
            decreases m - i,
        {
            if rest[i].duration > rest[best].duration {
                best = i;
            }
            i = i + 1;
        }
        let ghost rest0 = rest@;
        let e = rest.remove(best);
        let ghost out0 = out@;
        out.push(e);
        proof {
            assert(rest@ == rest0.remove(best as int));
            assert(e == rest0[best as int]);
            assert(rest0.contains(e));
            vstd::seq_lib::to_multiset_contains(rest0, e);
            vstd::seq_lib::to_multiset_remove(rest0, best as int);
            assert(out@ == out0.push(e));
            vstd::seq_lib::to_multiset_build(out0, e);
            assert(out@.to_multiset().add(rest@.to_multiset()) =~= orig.to_multiset());
            assert(forall|j: int|
                0 <= j < rest@.len() ==> #[trigger] rest@[j] == if j < best {
                    rest0[j]
                } else {
                    rest0[j + 1]
                });
        }
    }
    out
}

/// Two distinct positions holding the same value give it a multiset count
/// of at least two.
proof fn lemma_dup_count<T>(s: Seq<T>, i: int, j: int)
    requires
        0 <= i < j < s.len(),
        s[i] == s[j],
    ensures
        s.to_multiset().count(s[i]) >= 2,
{
    broadcast use vstd::seq_lib::group_to_multiset_ensures;
    broadcast use vstd::multiset::group_multiset_axioms;

    let t = s.remove(i);
    assert(t.to_multiset() =~= s.to_multiset().remove(s[i]));
    assert(t[j - 1] == s[j]);
    assert(t.contains(s[i]));
    assert(t.to_multiset().count(s[i]) > 0);
}

/// Completeness of an aggregation: every listed key whose final duration
/// clears the floor has an entry.
pub open spec fn covers_all(
    s: Seq<IntervalModel>,
    es: Seq<ProcessUsage>,
    min_percentage: u32,
    include_afk: bool,
) -> bool {
    forall|k: Seq<char>|
        listed(s, k, include_afk) && final_dur(s, k, include_afk) > spec_threshold(
            s,
            min_percentage,
        ) ==> exists|i: int| 0 <= i < es.len() && entry_key((#[trigger] es[i]).process_name@) == k
}

/// Aggregates one bucket's intervals into per-process totals: time is
/// keyed by the final path component of the process path (the entry
/// displays the full path of the key's first occurrence); time away from
/// keyboard is folded into a synthetic "Inactive" entry unless
/// `include_afk` is set; entries whose duration does not strictly exceed
/// `min_percentage` percent of the bucket's total elapsed time are
/// dropped; the rest come back sorted by descending duration, together
/// with the total elapsed time.
#[verifier::rlimit(100)]
#[verifier::spinoff_prover]
pub fn analyze_processes(intervals: Vec<Interval>, min_percentage: u32, include_afk: bool) -> (r: (
    Vec<ProcessUsage>,
    i64,
))
    requires
        forall|i: int| 0 <= i < intervals@.len() ==> (#[trigger] intervals.deep_view()[i]).wf(),
        sum_all(intervals.deep_view()) <= i64::MAX,
    ensures
        r.1 as int == sum_all(intervals.deep_view()),
        forall|i: int|
            0 <= i < r.0@.len() ==> {
                let s = intervals.deep_view();
                let k = entry_key((#[trigger] r.0@[i]).process_name@);
                &&& listed(s, k, include_afk)
                &&& r.0@[i].duration as int == final_dur(s, k, include_afk)
                &&& r.0@[i].process_name@ == final_display(s, k, include_afk)
                &&& r.0@[i].duration > spec_threshold(s, min_percentage)
            },
        forall|i: int, j: int|
            0 <= i < j < r.0@.len() ==> entry_key((#[trigger] r.0@[i]).process_name@) != entry_key(
                (#[trigger] r.0@[j]).process_name@,
            ),
        forall|i: int, j: int| 0 <= i <= j < r.0@.len() ==> r.0@[i].duration >= r.0@[j].duration,
        covers_all(intervals.deep_view(), r.0@, min_percentage, include_afk),
{
    let ghost s = intervals.deep_view();
    let n = intervals.len();

    // Collect the distinct normalized names in first-occurrence order,
    // with the display name of each key's first occurrence.
    let mut cleans: Vec<String> = Vec::new();
    let mut displays: Vec<String> = Vec::new();
    let mut j: usize = 0;
    while j < n
        invariant
            n == intervals@.len(),
            0 <= j <= n,
            s == intervals.deep_view(),
            forall|i: int| 0 <= i < s.len() ==> (#[trigger] s[i]).wf(),
            cleans@.len() == displays@.len(),
            forall|i: int|
                0 <= i < cleans@.len() ==> key_present(s, (#[trigger] cleans@[i])@, include_afk),
            forall|i: int|
                0 <= i < cleans@.len() ==> (#[trigger] displays@[i])@ == first_display(
                    s,
                    cleans@[i]@,
                    include_afk,
                ),
            forall|i1: int, i2: int|
                0 <= i1 < i2 < cleans@.len() ==> (#[trigger] cleans@[i1])@ != (
                #[trigger] cleans@[i2])@,
            forall|i: int|
                0 <= i < j && eligible(#[trigger] s[i], include_afk) ==> exists|i1: int|
                    0 <= i1 < cleans@.len() && (#[trigger] cleans@[i1])@ == clean_name(
                        s[i].process_name,
                    ),
        decreases n - j,
    {
        proof {
            assert(s[j as int] == intervals@[j as int]@);
        }
        if include_afk || !intervals[j].afk {
            let ck = clean_process_name(self_str(&intervals[j].process_name));
            match find_key(&cleans, &ck) {
                Some(found) => {
                    proof {
                        assert(cleans@[found as int]@ == clean_name(s[j as int].process_name));
                    }
                },
                None => {
                    proof {
                        assert forall|i: int| 0 <= i < j implies !(eligible(
                            #[trigger] s[i],
                            include_afk,
                        ) && clean_name(s[i].process_name) == ck@) by {
                            if eligible(s[i], include_afk) && clean_name(s[i].process_name)
                                == ck@ {
                                let i1 = choose|i1: int|
                                    0 <= i1 < cleans@.len() && (#[trigger] cleans@[i1])@
                                        == clean_name(s[i].process_name);
                            }
                        }
                        lemma_first_display_at(s, ck@, include_afk, j as int);
                    }
                    let display = intervals[j].process_name.clone();
                    let ghost cleans_before = cleans@;
                    cleans.push(ck);
                    displays.push(display);
                    proof {
                        assert(cleans@[cleans@.len() - 1]@ == clean_name(s[j as int].process_name));
                        assert forall|i: int|
                            0 <= i < j && eligible(#[trigger] s[i], include_afk) implies exists|
                        i1: int,
                        |
                            0 <= i1 < cleans@.len() && (#[trigger] cleans@[i1])@ == clean_name(
                                s[i].process_name,
                            ) by {
                            let i1 = choose|i1: int|
                                0 <= i1 < cleans_before.len() && (#[trigger] cleans_before[i1])@
                                    == clean_name(s[i].process_name);
                            assert(cleans@[i1] == cleans_before[i1]);
                        }
                    }
                },
            }
        }
        j = j + 1;
    }

    // One entry per key, with its accumulated duration.
    let m = cleans.len();
    let mut entries: Vec<ProcessUsage> = Vec::new();
    let mut i: usize = 0;
    while i < m
        invariant
            m == cleans@.len(),
            m == displays@.len(),
            0 <= i <= m,
            s == intervals.deep_view(),
            forall|i0: int| 0 <= i0 < s.len() ==> (#[trigger] s[i0]).wf(),
            sum_all(s) <= i64::MAX,
            entries@.len() == i,
            forall|i0: int|
                0 <= i0 < i ==> (#[trigger] entries@[i0]).duration as int == keyed_total(
                    s,
                    cleans@[i0]@,
                    include_afk,
                ) && entries@[i0].process_name@ == displays@[i0]@,
        decreases m - i,
    {
        let dur = total_for_key(&intervals, &cleans[i], include_afk);
        let name = displays[i].clone();
        entries.push(ProcessUsage { process_name: name, duration: dur });
        i = i + 1;
    }

    let total = sum_durations(&intervals);
    let inact = afk_sum(&intervals, include_afk);

    // Fold idle time into a synthetic "Inactive" entry, replacing a
    // process that happens to share the name.
    let mut cleans = cleans;
    let mut entries = entries;
    let ghost cleans_pre = cleans@;
    proof {
        lemma_inactive_clean();
        assert(inact > 0 <==> afk_total(s, include_afk) > 0);
    }
    if inact > 0 {
        let inactive_name = string_from("Inactive");
        match find_key(&cleans, &inactive_name) {
            Some(at) => {
                let ghost cleans0 = cleans@;
                let ghost entries0 = entries@;
                cleans.remove(at);
                entries.remove(at);
                proof {
                    assert(forall|i0: int|
                        0 <= i0 < cleans@.len() ==> #[trigger] cleans@[i0] == if i0 < at {
                            cleans0[i0]
                        } else {
                            cleans0[i0 + 1]
                        });
                    assert(forall|i0: int|
                        0 <= i0 < entries@.len() ==> #[trigger] entries@[i0] == if i0 < at {
                            entries0[i0]
                        } else {
                            entries0[i0 + 1]
                        });
                    assert forall|i0: int| 0 <= i0 < cleans@.len() implies (
                    #[trigger] cleans@[i0])@ != "Inactive"@ by {
                        if i0 < at {
                            assert(cleans0[i0]@ != cleans0[at as int]@);
                        } else {
                            assert(cleans0[i0 + 1]@ != cleans0[at as int]@);
                        }
                    }
                    assert forall|i: int|
                        0 <= i < s.len() && eligible(#[trigger] s[i], include_afk) && clean_name(
                            s[i].process_name,
                        ) != "Inactive"@ implies exists|i1: int|
                        0 <= i1 < cleans@.len() && (#[trigger] cleans@[i1])@ == clean_name(
                            s[i].process_name,
                        ) by {
                        let k = clean_name(s[i].process_name);
                        let w = choose|w: int|
                            0 <= w < cleans0.len() && (#[trigger] cleans0[w])@ == k;
                        assert(cleans0[at as int]@ == "Inactive"@);
                        if w < at {
                            assert(cleans@[w]@ == k);
                        } else {
                            assert(w != at);
                            assert(cleans@[w - 1]@ == k);
                        }
                    }
                }
            },
            None => {
                proof {
                    assert forall|i: int|
                        0 <= i < s.len() && eligible(#[trigger] s[i], include_afk) && clean_name(
                            s[i].process_name,
                        ) != "Inactive"@ implies exists|i1: int|
                        0 <= i1 < cleans@.len() && (#[trigger] cleans@[i1])@ == clean_name(
                            s[i].process_name,
                        ) by {
                        let k = clean_name(s[i].process_name);
                        let w = choose|w: int|
                            0 <= w < cleans_pre.len() && (#[trigger] cleans_pre[w])@ == k;
                        assert(cleans@[w]@ == k);
                    }
                }
            },
        }
        let name2 = string_from("Inactive");
        let ghost cleans1 = cleans@;
        let ghost entries1 = entries@;
        cleans.push(name2);
        entries.push(ProcessUsage { process_name: string_from("Inactive"), duration: inact });
        proof {
            assert(forall|i0: int|
                0 <= i0 < cleans1.len() ==> #[trigger] cleans@[i0] == cleans1[i0]);
            assert(forall|i0: int|
                0 <= i0 < entries1.len() ==> #[trigger] entries@[i0] == entries1[i0]);
            assert(cleans@[cleans@.len() - 1]@ == "Inactive"@);
            assert(entries@[entries@.len() - 1].process_name@ == "Inactive"@);
            assert(entries@[entries@.len() - 1].duration == inact);
            assert forall|i0: int| 0 <= i0 < cleans@.len() - 1 implies (
            #[trigger] cleans@[i0])@ != "Inactive"@ by {
                assert(cleans@[i0] == cleans1[i0]);
            }
            assert forall|i: int|
                0 <= i < s.len() && eligible(#[trigger] s[i], include_afk) implies exists|i1: int|
                0 <= i1 < cleans@.len() && (#[trigger] cleans@[i1])@ == clean_name(
                    s[i].process_name,
                ) by {
                let k = clean_name(s[i].process_name);
                if k == "Inactive"@ {
                    assert(cleans@[cleans@.len() - 1]@ == k);
                } else {
                    let w = choose|w: int|
                        0 <= w < cleans1.len() && (#[trigger] cleans1[w])@ == k;
                    assert(cleans@[w]@ == k);
                }
            }
        }
    }

    // Every entry now reports its final duration and display name.
    proof {
        lemma_inactive_clean();
        assert forall|i0: int| 0 <= i0 < entries@.len() implies {
            let k = (#[trigger] cleans@[i0])@;
            &&& listed(s, k, include_afk)
            &&& entries@[i0].duration as int == final_dur(s, k, include_afk)
            &&& entries@[i0].process_name@ == final_display(s, k, include_afk)
            &&& entry_key(entries@[i0].process_name@) == k
            &&& entries@[i0].duration >= 0
        } by {
            let k = cleans@[i0]@;
            if k == "Inactive"@ && afk_total(s, include_afk) > 0 {
                assert(i0 == entries@.len() - 1);
            } else {
                assert(key_present(s, k, include_afk));
                lemma_first_display_key(s, k, include_afk);
                lemma_sums(s, k, include_afk);
            }
        }
        assert forall|i0: int| 0 <= i0 < entries@.len() implies final_dur(
            s,
            (#[trigger] cleans@[i0])@,
            include_afk,
        ) >= 0 && (#[trigger] entries@[i0]).duration as int == final_dur(
            s,
            cleans@[i0]@,
            include_afk,
        ) && entry_key(entries@[i0].process_name@) == cleans@[i0]@ && entries@[i0].duration >= 0
            && listed(s, cleans@[i0]@, include_afk) && entries@[i0].process_name@ == final_display(
            s,
            cleans@[i0]@,
            include_afk,
        ) by {
            assert(cleans@[i0]@ == cleans@[i0]@);
        }
    }

    // The strict percentage floor.
    proof {
        assert(((total as int) * (min_percentage as int)) < 0x10000000000000000000000000000) by (nonlinear_arith)
            requires
                0 <= total as int <= 0x7fffffffffffffff,
                0 <= min_percentage as int <= 0xffffffff,
        ;
    }
    let thr: u128 = (total as u128) * (min_percentage as u128) / 100;
    let ghost gthr = spec_threshold(s, min_percentage);
    proof {
        assert(thr as int == gthr);
    }
    let ghost entries_all = entries@;
    let ghost cleans_all = cleans@;
    let mut kept: Vec<ProcessUsage> = Vec::new();
    let ghost mut srcs: Seq<int> = Seq::empty();
    while entries.len() > 0
        invariant
            entries@ == entries_all.take(entries@.len() as int),
            cleans_all.len() == entries_all.len(),
            thr as int == gthr,
            cleans_all.len() == entries_all.len(),
            forall|i0: int|
                0 <= i0 < entries_all.len() ==> (#[trigger] entries_all[i0]).duration as int
                    == final_dur(s, cleans_all[i0]@, include_afk),
            forall|i0: int|
                0 <= i0 < entries_all.len() ==> entry_key(
                    (#[trigger] entries_all[i0]).process_name@,
                ) == cleans_all[i0]@,
            forall|i0: int|
                0 <= i0 < entries_all.len() ==> (#[trigger] entries_all[i0]).duration >= 0,
            forall|i0: int|
                0 <= i0 < cleans_all.len() ==> listed(s, (#[trigger] cleans_all[i0])@, include_afk)
                    && entries_all[i0].process_name@ == final_display(
                    s,
                    cleans_all[i0]@,
                    include_afk,
                ),
            forall|i: int|
                0 <= i < s.len() && eligible(#[trigger] s[i], include_afk) ==> exists|i1: int|
                    0 <= i1 < cleans_all.len() && (#[trigger] cleans_all[i1])@ == clean_name(
                        s[i].process_name,
                    ),
            afk_total(s, include_afk) > 0 ==> exists|i1: int|
                0 <= i1 < cleans_all.len() && (#[trigger] cleans_all[i1])@ == "Inactive"@,
            forall|i1: int, i3: int|
                0 <= i1 < i3 < cleans_all.len() ==> (#[trigger] cleans_all[i1])@ != (
                #[trigger] cleans_all[i3])@,
            entries@.len() <= entries_all.len(),
            srcs.len() == kept@.len(),
            forall|i0: int|
                0 <= i0 < kept@.len() ==> entries@.len() <= #[trigger] srcs[i0]
                    < entries_all.len() && kept@[i0] == entries_all[srcs[i0]],
            forall|i0: int, i1: int| 0 <= i0 < i1 < kept@.len() ==> srcs[i0] > srcs[i1],
            forall|i0: int| 0 <= i0 < kept@.len() ==> (#[trigger] kept@[i0]).duration > gthr,
            forall|i1: int|
                entries@.len() <= i1 < entries_all.len() && (#[trigger] entries_all[i1]).duration
                    > gthr ==> exists|i0: int| 0 <= i0 < srcs.len() && #[trigger] srcs[i0] == i1,
        decreases entries@.len(),
    {
        let ghost elen = entries@.len() as int;
        let e = match entries.pop() {
            Some(e) => e,
            None => {
                proof {
                    assert(false);
                }
                ProcessUsage { process_name: string_from(""), duration: 0 }
            },
        };
        proof {
            assert(entries_all.take(elen).drop_last() =~= entries_all.take(elen - 1));
            assert(entries_all.take(elen).last() == entries_all[elen - 1]);
            assert(e == entries_all[elen - 1]);
        }
        if (e.duration as u128) > thr {
            proof {
                assert(entries_all[elen - 1].duration >= 0);
            }
            let ghost srcs0 = srcs;
            kept.push(e);
            proof {
                srcs = srcs.push(elen - 1);
                assert(forall|i0: int| 0 <= i0 < srcs0.len() ==> #[trigger] srcs[i0] == srcs0[i0]);
                assert(srcs[srcs.len() - 1] == elen - 1);
                assert forall|i1: int|
                    entries@.len() <= i1 < entries_all.len() && (
                    #[trigger] entries_all[i1]).duration > gthr implies exists|i0: int|
                    0 <= i0 < srcs.len() && #[trigger] srcs[i0] == i1 by {
                    if i1 == elen - 1 {
                        assert(srcs[srcs.len() - 1] == i1);
                    } else {
                        let w = choose|w: int| 0 <= w < srcs0.len() && #[trigger] srcs0[w] == i1;
                        assert(srcs[w] == i1);
                    }
                }
            }
        } else {
            proof {
                assert(entries_all[elen - 1].duration >= 0);
                assert(entries_all[elen - 1].duration <= gthr);
            }
        }
    }

    // Order by descending duration.
    let ghost ks = kept@;
    let sorted = sort_by_duration_desc(kept);
    proof {
        broadcast use vstd::seq_lib::group_to_multiset_ensures;
        broadcast use vstd::multiset::group_multiset_axioms;

        let ss = sorted@;
        assert forall|i0: int| 0 <= i0 < ss.len() implies exists|i1: int|
            0 <= i1 < ks.len() && ks[i1] == #[trigger] ss[i0] by {
            assert(ss.contains(ss[i0]));
            assert(ss.to_multiset().count(ss[i0]) > 0);
            assert(ks.to_multiset().count(ss[i0]) > 0);
            assert(ks.contains(ss[i0]));
        }
        assert forall|i0: int, i1: int| 0 <= i0 < i1 < ks.len() implies entry_key(
            (#[trigger] ks[i0]).process_name@,
        ) != entry_key((#[trigger] ks[i1]).process_name@) by {
            assert(ks[i0] == entries_all[srcs[i0]]);
            assert(ks[i1] == entries_all[srcs[i1]]);
            assert(cleans_all[srcs[i0]]@ != cleans_all[srcs[i1]]@);
        }
        assert forall|i0: int, i1: int| 0 <= i0 < i1 < ss.len() implies entry_key(
            (#[trigger] ss[i0]).process_name@,
        ) != entry_key((#[trigger] ss[i1]).process_name@) by {
            if entry_key(ss[i0].process_name@) == entry_key(ss[i1].process_name@) {
                let j0 = choose|j0: int| 0 <= j0 < ks.len() && ks[j0] == ss[i0];
                let j1 = choose|j1: int| 0 <= j1 < ks.len() && ks[j1] == ss[i1];
                if j0 != j1 {
                    assert(entry_key(ks[j0].process_name@) != entry_key(ks[j1].process_name@));
                } else {
                    assert(ss[i0] == ss[i1]);
                    lemma_dup_count(ss, i0, i1);
                    assert(ks.to_multiset().count(ss[i0]) >= 2);
                    lemma_count_unique(ks, j0, ss[i0]);
                }
            }
        }
        assert forall|k: Seq<char>|
            #![trigger listed(s, k, include_afk)]
            listed(s, k, include_afk) && final_dur(s, k, include_afk) > gthr implies exists|
            i0: int,
        |
            0 <= i0 < ss.len() && entry_key((#[trigger] ss[i0]).process_name@) == k by {
            lemma_listed_has_index(s, k, include_afk, cleans_all, entries_all);
            let i1 = choose|i1: int| 0 <= i1 < cleans_all.len() && (#[trigger] cleans_all[i1])@
                == k;
            assert(entries_all[i1].duration as int == final_dur(s, k, include_afk));
            assert(entries_all[i1].duration > gthr);
            let i3 = choose|i3: int| 0 <= i3 < srcs.len() && #[trigger] srcs[i3] == i1;
            assert(ks[i3] == entries_all[i1]);
            assert(ks.contains(entries_all[i1]));
            assert(ks.to_multiset().count(entries_all[i1]) > 0);
            assert(ss.to_multiset().count(entries_all[i1]) > 0);
            assert(ss.contains(entries_all[i1]));
            let i4 = choose|i4: int| 0 <= i4 < ss.len() && ss[i4] == entries_all[i1];
            assert(entry_key(ss[i4].process_name@) == k);
        }
        assert forall|i0: int| 0 <= i0 < ss.len() implies {
            let k = entry_key((#[trigger] ss[i0]).process_name@);
            &&& listed(s, k, include_afk)
            &&& ss[i0].duration as int == final_dur(s, k, include_afk)
            &&& ss[i0].process_name@ == final_display(s, k, include_afk)
            &&& ss[i0].duration > gthr
        } by {
            let i1 = choose|i1: int| 0 <= i1 < ks.len() && ks[i1] == ss[i0];
            assert(ks[i1] == entries_all[srcs[i1]]);
        }
    }
    proof {
        assert(covers_all(s, sorted@, min_percentage, include_afk)) by {
            assert forall|k: Seq<char>|
                listed(s, k, include_afk) && final_dur(s, k, include_afk) > spec_threshold(
                    s,
                    min_percentage,
                ) implies exists|i: int|
                0 <= i < sorted@.len() && entry_key((#[trigger] sorted@[i]).process_name@)
                    == k by {
                assert(spec_threshold(s, min_percentage) == gthr);
                let w = choose|w: int|
                    0 <= w < sorted@.len() && entry_key((#[trigger] sorted@[w]).process_name@)
                        == k;
                assert(0 <= w < sorted@.len() && entry_key(sorted@[w].process_name@) == k);
            }
        }
    }
    (sorted, total)
}

/// A value appearing at a position where all other positions hold other
/// keys has multiset count one.
proof fn lemma_count_unique(s: Seq<ProcessUsage>, j: int, v: ProcessUsage)
    requires
        0 <= j < s.len(),
        s[j] == v,
        forall|a: int, b: int|
            0 <= a < b < s.len() ==> entry_key((#[trigger] s[a]).process_name@) != entry_key(
                (#[trigger] s[b]).process_name@,
            ),
    ensures
        s.to_multiset().count(v) <= 1,
{
    broadcast use vstd::seq_lib::group_to_multiset_ensures;
    broadcast use vstd::multiset::group_multiset_axioms;

    let t = s.remove(j);
    assert(t.to_multiset() =~= s.to_multiset().remove(v));
    if t.to_multiset().count(v) > 0 {
        assert(t.contains(v));
        let a = choose|a: int| 0 <= a < t.len() && t[a] == v;
        if a < j {
            assert(s[a] == v);
        } else {
            assert(s[a + 1] == v);
        }
        assert(false);
    }
}

/// Every listed key has an entry in the pre-filter table.
proof fn lemma_listed_has_index(
    s: Seq<IntervalModel>,
    k: Seq<char>,
    include_afk: bool,
    cleans: Seq<String>,
    entries: Seq<ProcessUsage>,
)
    requires
        listed(s, k, include_afk),
        cleans.len() == entries.len(),
        forall|i: int|
            0 <= i < s.len() && eligible(#[trigger] s[i], include_afk) ==> exists|i1: int|
                0 <= i1 < cleans.len() && (#[trigger] cleans[i1])@ == clean_name(
                    s[i].process_name,
                ),
        afk_total(s, include_afk) > 0 ==> exists|i1: int|
            0 <= i1 < cleans.len() && (#[trigger] cleans[i1])@ == "Inactive"@,
    ensures
        exists|i1: int| 0 <= i1 < cleans.len() && (#[trigger] cleans[i1])@ == k,
{
    if key_present(s, k, include_afk) {
        let i = choose|i: int|
            0 <= i < s.len() && eligible(#[trigger] s[i], include_afk) && clean_name(
                s[i].process_name,
            ) == k;
        assert(exists|i1: int|
            0 <= i1 < cleans.len() && (#[trigger] cleans[i1])@ == clean_name(s[i].process_name));
    }
}

/// The display name of a present key normalizes back to the key.
proof fn lemma_first_display_key(s: Seq<IntervalModel>, k: Seq<char>, include_afk: bool)
    requires
        key_present(s, k, include_afk),
    ensures
        clean_name(first_display(s, k, include_afk)) == k,
    decreases s.len(),
{
    if s.len() > 0 {
        if eligible(s[0], include_afk) && clean_name(s[0].process_name) == k {
        } else {
            let rest = s.drop_first();
            assert(forall|i: int| 0 <= i < rest.len() ==> rest[i] == s[i + 1]);
            let i = choose|i: int|
                0 <= i < s.len() && eligible(#[trigger] s[i], include_afk) && clean_name(
                    s[i].process_name,
                ) == k;
            assert(i > 0);
            assert(rest[i - 1] == s[i]);
            assert(key_present(rest, k, include_afk));
            lemma_first_display_key(rest, k, include_afk);
        }
    }
}

/// A fresh string with these characters.
fn string_from(s: &str) -> (r: String)
    ensures
        r@ == s@,
{
    String::from_str(s)
}

/// One window's share of a bucket: the owning process's display name, the
/// window name, and the accumulated duration.
#[derive(Debug, PartialEq)]
pub struct WindowUsage {
    pub process_name: String,
    pub window_name: String,
    pub duration: i64,
}

/// Total duration of the counted intervals with this normalized process
/// name and window name.
pub open spec fn keyed_total_w(
    s: Seq<IntervalModel>,
    kp: Seq<char>,
    kw: Seq<char>,
    include_afk: bool,
) -> int
    decreases s.len(),
{
    if s.len() == 0 {
        0
    } else {
        keyed_total_w(s.drop_last(), kp, kw, include_afk) + if eligible(s.last(), include_afk)
            && clean_name(s.last().process_name) == kp && s.last().window_name == kw {
            s.last().duration as int
        } else {
            0
        }
    }
}

/// Some counted interval has this normalized process and window name.
pub open spec fn key_present_w(
    s: Seq<IntervalModel>,
    kp: Seq<char>,
    kw: Seq<char>,
    include_afk: bool,
) -> bool {
    exists|i: int|
        0 <= i < s.len() && eligible(#[trigger] s[i], include_afk) && clean_name(s[i].process_name)
            == kp && s[i].window_name == kw
}

/// The full process path of the first counted interval with this key.
pub open spec fn first_display_w(
    s: Seq<IntervalModel>,
    kp: Seq<char>,
    kw: Seq<char>,
    include_afk: bool,
) -> Seq<char>
    decreases s.len(),
{
    if s.len() == 0 {
        Seq::empty()
    } else if eligible(s[0], include_afk) && clean_name(s[0].process_name) == kp
        && s[0].window_name == kw {
        s[0].process_name
    } else {
        first_display_w(s.drop_first(), kp, kw, include_afk)
    }
}

/// The keys the window aggregation lists: every counted
/// (process, window) pair, plus the synthetic ("Inactive", "") pair when
/// idle time was folded away.
pub open spec fn listed_w(
    s: Seq<IntervalModel>,
    kp: Seq<char>,
    kw: Seq<char>,
    include_afk: bool,
) -> bool {
    key_present_w(s, kp, kw, include_afk) || (kp == "Inactive"@ && kw == ""@ && afk_total(
        s,
        include_afk,
    ) > 0)
}

/// The duration an aggregated window entry reports.
pub open spec fn final_dur_w(
    s: Seq<IntervalModel>,
    kp: Seq<char>,
    kw: Seq<char>,
    include_afk: bool,
) -> int {
    if kp == "Inactive"@ && kw == ""@ && afk_total(s, include_afk) > 0 {
        afk_total(s, include_afk)
    } else {
        keyed_total_w(s, kp, kw, include_afk)
    }
}

/// The process name an aggregated window entry displays.
pub open spec fn final_display_w(
    s: Seq<IntervalModel>,
    kp: Seq<char>,
    kw: Seq<char>,
    include_afk: bool,
) -> Seq<char> {
    if kp == "Inactive"@ && kw == ""@ && afk_total(s, include_afk) > 0 {
        "Inactive"@
    } else {
        first_display_w(s, kp, kw, include_afk)
    }
}

/// Completeness of a window aggregation: every listed key whose final
/// duration clears the floor has an entry.
pub open spec fn covers_all_w(
    s: Seq<IntervalModel>,
    es: Seq<WindowUsage>,
    min_percentage: u32,
    include_afk: bool,
) -> bool {
    forall|kp: Seq<char>, kw: Seq<char>|
        listed_w(s, kp, kw, include_afk) && final_dur_w(s, kp, kw, include_afk) > spec_threshold(
            s,
            min_percentage,
        ) ==> exists|i: int|
            0 <= i < es.len() && entry_key((#[trigger] es[i]).process_name@) == kp
                && es[i].window_name@ == kw
}

/// The display name of the first counted occurrence of a pair, located.
proof fn lemma_first_display_w_at(
    s: Seq<IntervalModel>,
    kp: Seq<char>,
    kw: Seq<char>,
    include_afk: bool,
    j: int,
)
    requires
        0 <= j < s.len(),
        eligible(s[j], include_afk),
        clean_name(s[j].process_name) == kp,
        s[j].window_name == kw,
        forall|i: int|
            0 <= i < j ==> !(eligible(#[trigger] s[i], include_afk) && clean_name(
                s[i].process_name,
            ) == kp && s[i].window_name == kw),
    ensures
        first_display_w(s, kp, kw, include_afk) == s[j].process_name,
    decreases j,
{
    if j > 0 {
        let rest = s.drop_first();
        assert(forall|i: int| 0 <= i < rest.len() ==> rest[i] == s[i + 1]);
        lemma_first_display_w_at(rest, kp, kw, include_afk, j - 1);
    }
}

/// The display name of a present pair normalizes back to its process key.
proof fn lemma_first_display_w_key(
    s: Seq<IntervalModel>,
    kp: Seq<char>,
    kw: Seq<char>,
    include_afk: bool,
)
    requires
        key_present_w(s, kp, kw, include_afk),
    ensures
        clean_name(first_display_w(s, kp, kw, include_afk)) == kp,
    decreases s.len(),
{
    if s.len() > 0 {
        if eligible(s[0], include_afk) && clean_name(s[0].process_name) == kp && s[0].window_name
            == kw {
        } else {
            let rest = s.drop_first();
            assert(forall|i: int| 0 <= i < rest.len() ==> rest[i] == s[i + 1]);
            let i = choose|i: int|
                0 <= i < s.len() && eligible(#[trigger] s[i], include_afk) && clean_name(
                    s[i].process_name,
                ) == kp && s[i].window_name == kw;
            assert(i > 0);
            assert(rest[i - 1] == s[i]);
            assert(key_present_w(rest, kp, kw, include_afk));
            lemma_first_display_w_key(rest, kp, kw, include_afk);
        }
    }
}

/// A pair total stays within the whole.
proof fn lemma_sums_w(s: Seq<IntervalModel>, kp: Seq<char>, kw: Seq<char>, include_afk: bool)
    requires
        forall|i: int| 0 <= i < s.len() ==> (#[trigger] s[i]).wf(),
    ensures
        0 <= keyed_total_w(s, kp, kw, include_afk) <= sum_all(s),
    decreases s.len(),
{
    if s.len() > 0 {
        assert(forall|i: int| 0 <= i < s.drop_last().len() ==> s.drop_last()[i] == s[i]);
        lemma_sums_w(s.drop_last(), kp, kw, include_afk);
        assert(s.last().wf());
    }
}

/// Time counted under one (process, window) pair, the executable
/// counterpart of [`keyed_total_w`].
fn total_for_key_w(
    intervals: &Vec<Interval>,
    kp: &String,
    kw: &String,
    include_afk: bool,
) -> (r: i64)
    requires
        forall|i: int| 0 <= i < intervals@.len() ==> (#[trigger] intervals.deep_view()[i]).wf(),
        sum_all(intervals.deep_view()) <= i64::MAX,
    ensures
        r as int == keyed_total_w(intervals.deep_view(), kp@, kw@, include_afk),
        r >= 0,
{
    let ghost s = intervals.deep_view();
    let n = intervals.len();
    let mut acc: i64 = 0;
    let mut j: usize = 0;
    while j < n
        invariant
            n == intervals@.len(),
            0 <= j <= n,
            s == intervals.deep_view(),
            forall|i: int| 0 <= i < s.len() ==> (#[trigger] s[i]).wf(),
            sum_all(s) <= i64::MAX,
            acc as int == keyed_total_w(s.take(j as int), kp@, kw@, include_afk),
            acc >= 0,
        decreases n - j,
    {
        proof {
            assert(s[j as int] == intervals@[j as int]@);
            assert(s[j as int].wf());
            assert(s.take(j + 1).drop_last() =~= s.take(j as int));
            assert(s.take(j + 1).last() == s[j as int]);
            assert(forall|i: int|
                0 <= i < s.take(j + 1).len() ==> (#[trigger] s.take(j + 1)[i]).wf());
            lemma_sums_w(s.take(j + 1), kp@, kw@, include_afk);
            lemma_sum_all_prefix(s, j + 1);
        }
        let counted = if include_afk || !intervals[j].afk {
            let ck = clean_process_name(self_str(&intervals[j].process_name));
            ck.eq(kp) && intervals[j].window_name.eq(kw)
        } else {
            false
        };
        if counted {
            acc = acc + intervals[j].duration;
        }
        j = j + 1;
    }
    proof {
        assert(s.take(n as int) =~= s);
    }
    acc
}

/// The position of a (process, window) pair in the key lists, if present.
fn find_key_w(kprocs: &Vec<String>, kwins: &Vec<String>, kp: &String, kw: &String) -> (r: Option<
    usize,
>)
    requires
        kprocs@.len() == kwins@.len(),
    ensures
        match r {
            Some(i) => i < kprocs@.len() && kprocs@[i as int]@ == kp@ && kwins@[i as int]@ == kw@,
            None => forall|i: int|
                0 <= i < kprocs@.len() ==> !((#[trigger] kprocs@[i])@ == kp@ && kwins@[i]@ == kw@),
        },
{
    let n = kprocs.len();
    let mut i: usize = 0;
    while i < n
        invariant
            n == kprocs@.len(),
            n == kwins@.len(),
            0 <= i <= n,
            forall|j: int| 0 <= j < i ==> !((#[trigger] kprocs@[j])@ == kp@ && kwins@[j]@ == kw@),
        decreases n - i,
    {
        if kprocs[i].eq(kp) && kwins[i].eq(kw) {
            return Some(i);
        }
        i = i + 1;
    }
    None
}

/// Sorts window entries by descending duration, as [`sort_by_duration_desc`].
fn sort_windows_by_duration_desc(entries: Vec<WindowUsage>) -> (r: Vec<WindowUsage>)
    ensures
        r@.len() == entries@.len(),
        r@.to_multiset() == entries@.to_multiset(),
        forall|i: int, j: int| 0 <= i <= j < r@.len() ==> r@[i].duration >= r@[j].duration,
{
    broadcast use vstd::seq_lib::group_to_multiset_ensures;
    broadcast use vstd::multiset::group_multiset_axioms;

    let ghost orig = entries@;
    let mut rest = entries;
    let mut out: Vec<WindowUsage> = Vec::new();
    while rest.len() > 0
        invariant
            out@.to_multiset().add(rest@.to_multiset()) == orig.to_multiset(),
            out@.len() + rest@.len() == orig.len(),
            forall|i: int, j: int| 0 <= i <= j < out@.len() ==> out@[i].duration >= out@[j].duration,
            forall|i: int, j: int|
                0 <= i < out@.len() && 0 <= j < rest@.len() ==> (#[trigger] out@[i]).duration
                    >= (#[trigger] rest@[j]).duration,
        decreases rest@.len(),
    {
        let m = rest.len();
        let mut best: usize = 0;
        let mut i: usize = 1;
        while i < m
            invariant
                m == rest@.len(),
                0 < m,
                0 <= best < i <= m,
                forall|j: int| 0 <= j < i ==> rest@[best as int].duration >= (#[trigger] rest@[j]).duration,
            decreases m - i,
        {
            if rest[i].duration > rest[best].duration {
                best = i;
            }
            i = i + 1;
        }
        let ghost rest0 = rest@;
        let e = rest.remove(best);
        let ghost out0 = out@;
        out.push(e);
        proof {
            assert(rest@ == rest0.remove(best as int));
            assert(e == rest0[best as int]);
            assert(rest0.contains(e));
            vstd::seq_lib::to_multiset_contains(rest0, e);
            vstd::seq_lib::to_multiset_remove(rest0, best as int);
            assert(out@ == out0.push(e));
            vstd::seq_lib::to_multiset_build(out0, e);
            assert(out@.to_multiset().add(rest@.to_multiset()) =~= orig.to_multiset());
            assert(forall|j: int|
                0 <= j < rest@.len() ==> #[trigger] rest@[j] == if j < best {
                    rest0[j]
                } else {
                    rest0[j + 1]
                });
        }
    }
    out
}

/// A window entry appearing where all other positions hold other pairs
/// has multiset count one.
proof fn lemma_count_unique_w(s: Seq<WindowUsage>, j: int, v: WindowUsage)
    requires
        0 <= j < s.len(),
        s[j] == v,
        forall|a: int, b: int|
            0 <= a < b < s.len() ==> !(entry_key((#[trigger] s[a]).process_name@) == entry_key(
                (#[trigger] s[b]).process_name@,
            ) && s[a].window_name@ == s[b].window_name@),
    ensures
        s.to_multiset().count(v) <= 1,
{
    broadcast use vstd::seq_lib::group_to_multiset_ensures;
    broadcast use vstd::multiset::group_multiset_axioms;

    let t = s.remove(j);
    assert(t.to_multiset() =~= s.to_multiset().remove(v));
    if t.to_multiset().count(v) > 0 {
        assert(t.contains(v));
        let a = choose|a: int| 0 <= a < t.len() && t[a] == v;
        if a < j {
            assert(s[a] == v);
        } else {
            assert(s[a + 1] == v);
        }
        assert(false);
    }
}

/// Aggregates one bucket's intervals into per-window totals: time is
/// keyed by the pair of the process path's final component and the
/// window name (the entry displays the full path of the pair's first
/// occurrence); time away from keyboard is folded into a synthetic
/// ("Inactive", "") entry unless `include_afk` is set; entries whose
/// duration does not strictly exceed `min_percentage` percent of the
/// bucket's total elapsed time are dropped; the rest come back sorted by
/// descending duration, with the total elapsed time.
#[verifier::rlimit(100)]
#[verifier::spinoff_prover]
pub fn analyze_windows(intervals: Vec<Interval>, min_percentage: u32, include_afk: bool) -> (r: (
    Vec<WindowUsage>,
    i64,
))
    requires
        forall|i: int| 0 <= i < intervals@.len() ==> (#[trigger] intervals.deep_view()[i]).wf(),
        sum_all(intervals.deep_view()) <= i64::MAX,
    ensures
        r.1 as int == sum_all(intervals.deep_view()),
        forall|i: int|
            0 <= i < r.0@.len() ==> {
                let s = intervals.deep_view();
                let kp = entry_key((#[trigger] r.0@[i]).process_name@);
                let kw = r.0@[i].window_name@;
                &&& listed_w(s, kp, kw, include_afk)
                &&& r.0@[i].duration as int == final_dur_w(s, kp, kw, include_afk)
                &&& r.0@[i].process_name@ == final_display_w(s, kp, kw, include_afk)
                &&& r.0@[i].duration > spec_threshold(s, min_percentage)
            },
        forall|i: int, j: int|
            0 <= i < j < r.0@.len() ==> !(entry_key((#[trigger] r.0@[i]).process_name@)
                == entry_key((#[trigger] r.0@[j]).process_name@) && r.0@[i].window_name@
                == r.0@[j].window_name@),
        forall|i: int, j: int| 0 <= i <= j < r.0@.len() ==> r.0@[i].duration >= r.0@[j].duration,
        covers_all_w(intervals.deep_view(), r.0@, min_percentage, include_afk),
{
    let ghost s = intervals.deep_view();
    let n = intervals.len();

    // Collect the distinct pairs in first-occurrence order, with the
    // display name of each pair's first occurrence.
    let mut kprocs: Vec<String> = Vec::new();
    let mut kwins: Vec<String> = Vec::new();
    let mut displays: Vec<String> = Vec::new();
    let mut j: usize = 0;
    while j < n
        invariant
            n == intervals@.len(),
            0 <= j <= n,
            s == intervals.deep_view(),
            forall|i: int| 0 <= i < s.len() ==> (#[trigger] s[i]).wf(),
            kprocs@.len() == kwins@.len(),
            kprocs@.len() == displays@.len(),
            forall|i: int|
                0 <= i < kprocs@.len() ==> key_present_w(
                    s,
                    (#[trigger] kprocs@[i])@,
                    kwins@[i]@,
                    include_afk,
                ),
            forall|i: int|
                0 <= i < kprocs@.len() ==> (#[trigger] displays@[i])@ == first_display_w(
                    s,
                    kprocs@[i]@,
                    kwins@[i]@,
                    include_afk,
                ),
            forall|i1: int, i2: int|
                0 <= i1 < i2 < kprocs@.len() ==> !((#[trigger] kprocs@[i1])@ == (
                #[trigger] kprocs@[i2])@ && kwins@[i1]@ == kwins@[i2]@),
            forall|i: int|
                0 <= i < j && eligible(#[trigger] s[i], include_afk) ==> exists|i1: int|
                    0 <= i1 < kprocs@.len() && (#[trigger] kprocs@[i1])@ == clean_name(
                        s[i].process_name,
                    ) && kwins@[i1]@ == s[i].window_name,
        decreases n - j,
    {
        proof {
            assert(s[j as int] == intervals@[j as int]@);
        }
        if include_afk || !intervals[j].afk {
            let ck = clean_process_name(self_str(&intervals[j].process_name));
            let wn = intervals[j].window_name.clone();
            match find_key_w(&kprocs, &kwins, &ck, &wn) {
                Some(found) => {
                    proof {
                        assert(kprocs@[found as int]@ == clean_name(s[j as int].process_name));
                        assert(kwins@[found as int]@ == s[j as int].window_name);
                    }
                },
                None => {
                    proof {
                        assert forall|i: int| 0 <= i < j implies !(eligible(
                            #[trigger] s[i],
                            include_afk,
                        ) && clean_name(s[i].process_name) == ck@ && s[i].window_name == wn@) by {
                            if eligible(s[i], include_afk) && clean_name(s[i].process_name) == ck@
                                && s[i].window_name == wn@ {
                                let i1 = choose|i1: int|
                                    0 <= i1 < kprocs@.len() && (#[trigger] kprocs@[i1])@
                                        == clean_name(s[i].process_name) && kwins@[i1]@
                                        == s[i].window_name;
                            }
                        }
                        lemma_first_display_w_at(s, ck@, wn@, include_afk, j as int);
                    }
                    let display = intervals[j].process_name.clone();
                    let ghost kprocs_before = kprocs@;
                    kprocs.push(ck);
                    kwins.push(wn);
                    displays.push(display);
                    proof {
                        assert(kprocs@[kprocs@.len() - 1]@ == clean_name(s[j as int].process_name));
                        assert(kwins@[kwins@.len() - 1]@ == s[j as int].window_name);
                        assert forall|i: int|
                            0 <= i < j && eligible(#[trigger] s[i], include_afk) implies exists|
                        i1: int,
                        |
                            0 <= i1 < kprocs@.len() && (#[trigger] kprocs@[i1])@ == clean_name(
                                s[i].process_name,
                            ) && kwins@[i1]@ == s[i].window_name by {
                            let i1 = choose|i1: int|
                                0 <= i1 < kprocs_before.len() && (#[trigger] kprocs_before[i1])@
                                    == clean_name(s[i].process_name) && kwins@[i1]@
                                    == s[i].window_name;
                            assert(kprocs@[i1] == kprocs_before[i1]);
                        }
                    }
                },
            }
        }
        j = j + 1;
    }

    // One entry per pair, with its accumulated duration.
    let m = kprocs.len();
    let mut entries: Vec<WindowUsage> = Vec::new();
    let mut i: usize = 0;
    while i < m
        invariant
            m == kprocs@.len(),
            m == kwins@.len(),
            m == displays@.len(),
            0 <= i <= m,
            s == intervals.deep_view(),
            forall|i0: int| 0 <= i0 < s.len() ==> (#[trigger] s[i0]).wf(),
            sum_all(s) <= i64::MAX,
            entries@.len() == i,
            forall|i0: int|
                0 <= i0 < i ==> (#[trigger] entries@[i0]).duration as int == keyed_total_w(
                    s,
                    kprocs@[i0]@,
                    kwins@[i0]@,
                    include_afk,
                ) && entries@[i0].process_name@ == displays@[i0]@ && entries@[i0].window_name@
                    == kwins@[i0]@,
        decreases m - i,
    {
        let dur = total_for_key_w(&intervals, &kprocs[i], &kwins[i], include_afk);
        let name = displays[i].clone();
        let wname = kwins[i].clone();
        entries.push(WindowUsage { process_name: name, window_name: wname, duration: dur });
        i = i + 1;
    }

    let total = sum_durations(&intervals);
    let inact = afk_sum(&intervals, include_afk);

    // Fold idle time into a synthetic ("Inactive", "") entry, replacing a
    // pair that happens to share both names.
    let mut kprocs = kprocs;
    let mut kwins = kwins;
    let mut entries = entries;
    let ghost kprocs_pre = kprocs@;
    let ghost kwins_pre = kwins@;
    proof {
        lemma_inactive_clean();
        assert(inact > 0 <==> afk_total(s, include_afk) > 0);
    }
    if inact > 0 {
        let inactive_name = string_from("Inactive");
        let empty_name = string_from("");
        match find_key_w(&kprocs, &kwins, &inactive_name, &empty_name) {
            Some(at) => {
                let ghost kprocs0 = kprocs@;
                let ghost kwins0 = kwins@;
                let ghost entries0 = entries@;
                kprocs.remove(at);
                kwins.remove(at);
                entries.remove(at);
                proof {
                    assert(forall|i0: int|
                        0 <= i0 < kprocs@.len() ==> #[trigger] kprocs@[i0] == if i0 < at {
                            kprocs0[i0]
                        } else {
                            kprocs0[i0 + 1]
                        });
                    assert(forall|i0: int|
                        0 <= i0 < kwins@.len() ==> #[trigger] kwins@[i0] == if i0 < at {
                            kwins0[i0]
                        } else {
                            kwins0[i0 + 1]
                        });
                    assert(forall|i0: int|
                        0 <= i0 < entries@.len() ==> #[trigger] entries@[i0] == if i0 < at {
                            entries0[i0]
                        } else {
                            entries0[i0 + 1]
                        });
                    assert forall|i0: int| 0 <= i0 < kprocs@.len() implies !((
                    #[trigger] kprocs@[i0])@ == "Inactive"@ && kwins@[i0]@ == ""@) by {
                        if i0 < at {
                            assert(!(kprocs0[i0]@ == kprocs0[at as int]@ && kwins0[i0]@
                                == kwins0[at as int]@));
                        } else {
                            assert(!(kprocs0[i0 + 1]@ == kprocs0[at as int]@ && kwins0[i0 + 1]@
                                == kwins0[at as int]@));
                        }
                    }
                    assert forall|i: int|
                        0 <= i < s.len() && eligible(#[trigger] s[i], include_afk) && !(clean_name(
                            s[i].process_name,
                        ) == "Inactive"@ && s[i].window_name == ""@) implies exists|i1: int|
                        0 <= i1 < kprocs@.len() && (#[trigger] kprocs@[i1])@ == clean_name(
                            s[i].process_name,
                        ) && kwins@[i1]@ == s[i].window_name by {
                        let w = choose|w: int|
                            0 <= w < kprocs0.len() && (#[trigger] kprocs0[w])@ == clean_name(
                                s[i].process_name,
                            ) && kwins0[w]@ == s[i].window_name;
                        assert(kprocs0[at as int]@ == "Inactive"@ && kwins0[at as int]@ == ""@);
                        if w < at {
                            assert(kprocs@[w]@ == clean_name(s[i].process_name) && kwins@[w]@
                                == s[i].window_name);
                        } else {
                            assert(w != at);
                            assert(kprocs@[w - 1]@ == clean_name(s[i].process_name) && kwins@[w
                                - 1]@ == s[i].window_name);
                        }
                    }
                }
            },
            None => {
                proof {
                    assert forall|i: int|
                        0 <= i < s.len() && eligible(#[trigger] s[i], include_afk) && !(clean_name(
                            s[i].process_name,
                        ) == "Inactive"@ && s[i].window_name == ""@) implies exists|i1: int|
                        0 <= i1 < kprocs@.len() && (#[trigger] kprocs@[i1])@ == clean_name(
                            s[i].process_name,
                        ) && kwins@[i1]@ == s[i].window_name by {
                        let w = choose|w: int|
                            0 <= w < kprocs_pre.len() && (#[trigger] kprocs_pre[w])@ == clean_name(
                                s[i].process_name,
                            ) && kwins_pre[w]@ == s[i].window_name;
                        assert(kprocs@[w]@ == clean_name(s[i].process_name) && kwins@[w]@
                            == s[i].window_name);
                    }
                }
            },
        }
        let ghost kprocs1 = kprocs@;
        let ghost kwins1 = kwins@;
        let ghost entries1 = entries@;
        kprocs.push(string_from("Inactive"));
        kwins.push(string_from(""));
        entries.push(
            WindowUsage {
                process_name: string_from("Inactive"),
                window_name: string_from(""),
                duration: inact,
            },
        );
        proof {
            assert(forall|i0: int|
                0 <= i0 < kprocs1.len() ==> #[trigger] kprocs@[i0] == kprocs1[i0]);
            assert(forall|i0: int| 0 <= i0 < kwins1.len() ==> #[trigger] kwins@[i0] == kwins1[i0]);
            assert(forall|i0: int|
                0 <= i0 < entries1.len() ==> #[trigger] entries@[i0] == entries1[i0]);
            assert(kprocs@[kprocs@.len() - 1]@ == "Inactive"@);
            assert(kwins@[kwins@.len() - 1]@ == ""@);
            assert(entries@[entries@.len() - 1].process_name@ == "Inactive"@);
            assert(entries@[entries@.len() - 1].window_name@ == ""@);
            assert(entries@[entries@.len() - 1].duration == inact);
            assert forall|i0: int| 0 <= i0 < kprocs@.len() - 1 implies !((
            #[trigger] kprocs@[i0])@ == "Inactive"@ && kwins@[i0]@ == ""@) by {
                assert(kprocs@[i0] == kprocs1[i0] && kwins@[i0] == kwins1[i0]);
            }
            assert forall|i: int|
                0 <= i < s.len() && eligible(#[trigger] s[i], include_afk) implies exists|i1: int|
                0 <= i1 < kprocs@.len() && (#[trigger] kprocs@[i1])@ == clean_name(
                    s[i].process_name,
                ) && kwins@[i1]@ == s[i].window_name by {
                if clean_name(s[i].process_name) == "Inactive"@ && s[i].window_name == ""@ {
                    assert(kprocs@[kprocs@.len() - 1]@ == clean_name(s[i].process_name)
                        && kwins@[kwins@.len() - 1]@ == s[i].window_name);
                } else {
                    let w = choose|w: int|
                        0 <= w < kprocs1.len() && (#[trigger] kprocs1[w])@ == clean_name(
                            s[i].process_name,
                        ) && kwins1[w]@ == s[i].window_name;
                    assert(kprocs@[w]@ == clean_name(s[i].process_name) && kwins@[w]@
                        == s[i].window_name);
                }
            }
        }
    }

    // Every entry now reports its final duration and display name.
    proof {
        lemma_inactive_clean();
        assert forall|i0: int| 0 <= i0 < entries@.len() implies ((#[trigger] kprocs@[i0])@
            == kprocs@[i0]@ && listed_w(s, kprocs@[i0]@, kwins@[i0]@, include_afk) && entries@[
            i0
        ].duration as int == final_dur_w(s, kprocs@[i0]@, kwins@[i0]@, include_afk)
            && entries@[i0].process_name@ == final_display_w(
            s,
            kprocs@[i0]@,
            kwins@[i0]@,
            include_afk,
        ) && entry_key(entries@[i0].process_name@) == kprocs@[i0]@ && entries@[i0].window_name@
            == kwins@[i0]@ && entries@[i0].duration >= 0) by {
            let kp = kprocs@[i0]@;
            let kw = kwins@[i0]@;
            if kp == "Inactive"@ && kw == ""@ && afk_total(s, include_afk) > 0 {
                assert(i0 == entries@.len() - 1);
            } else {
                assert(key_present_w(s, kp, kw, include_afk));
                lemma_first_display_w_key(s, kp, kw, include_afk);
                lemma_sums_w(s, kp, kw, include_afk);
            }
        }
    }

    // The strict percentage floor.
    proof {
        assert(((total as int) * (min_percentage as int))
            < 0x10000000000000000000000000000) by (nonlinear_arith)
            requires
                0 <= total as int <= 0x7fffffffffffffff,
                0 <= min_percentage as int <= 0xffffffff,
        ;
    }
    let thr: u128 = (total as u128) * (min_percentage as u128) / 100;
    let ghost gthr = spec_threshold(s, min_percentage);
    proof {
        assert(thr as int == gthr);
    }
    let ghost entries_all = entries@;
    let ghost kprocs_all = kprocs@;
    let ghost kwins_all = kwins@;
    let mut kept: Vec<WindowUsage> = Vec::new();
    let ghost mut srcs: Seq<int> = Seq::empty();
    while entries.len() > 0
        invariant
            entries@ == entries_all.take(entries@.len() as int),
            entries@.len() <= entries_all.len(),
            kprocs_all.len() == entries_all.len(),
            kwins_all.len() == entries_all.len(),
            thr as int == gthr,
            forall|i0: int|
                0 <= i0 < entries_all.len() ==> (#[trigger] entries_all[i0]).duration as int
                    == final_dur_w(s, kprocs_all[i0]@, kwins_all[i0]@, include_afk),
            forall|i0: int|
                0 <= i0 < entries_all.len() ==> entry_key(
                    (#[trigger] entries_all[i0]).process_name@,
                ) == kprocs_all[i0]@ && entries_all[i0].window_name@ == kwins_all[i0]@,
            forall|i0: int|
                0 <= i0 < entries_all.len() ==> (#[trigger] entries_all[i0]).duration >= 0,
            forall|i0: int|
                0 <= i0 < kprocs_all.len() ==> listed_w(
                    s,
                    (#[trigger] kprocs_all[i0])@,
                    kwins_all[i0]@,
                    include_afk,
                ) && entries_all[i0].process_name@ == final_display_w(
                    s,
                    kprocs_all[i0]@,
                    kwins_all[i0]@,
                    include_afk,
                ),
            forall|i1: int, i3: int|
                0 <= i1 < i3 < kprocs_all.len() ==> !((#[trigger] kprocs_all[i1])@ == (
                #[trigger] kprocs_all[i3])@ && kwins_all[i1]@ == kwins_all[i3]@),
            forall|i: int|
                0 <= i < s.len() && eligible(#[trigger] s[i], include_afk) ==> exists|i1: int|
                    0 <= i1 < kprocs_all.len() && (#[trigger] kprocs_all[i1])@ == clean_name(
                        s[i].process_name,
                    ) && kwins_all[i1]@ == s[i].window_name,
            afk_total(s, include_afk) > 0 ==> exists|i1: int|
                0 <= i1 < kprocs_all.len() && (#[trigger] kprocs_all[i1])@ == "Inactive"@
                    && kwins_all[i1]@ == ""@,
            srcs.len() == kept@.len(),
            forall|i0: int|
                0 <= i0 < kept@.len() ==> entries@.len() <= #[trigger] srcs[i0]
                    < entries_all.len() && kept@[i0] == entries_all[srcs[i0]],
            forall|i0: int, i1: int| 0 <= i0 < i1 < kept@.len() ==> srcs[i0] > srcs[i1],
            forall|i0: int| 0 <= i0 < kept@.len() ==> (#[trigger] kept@[i0]).duration > gthr,
            forall|i1: int|
                entries@.len() <= i1 < entries_all.len() && (#[trigger] entries_all[i1]).duration
                    > gthr ==> exists|i0: int| 0 <= i0 < srcs.len() && #[trigger] srcs[i0] == i1,
        decreases entries@.len(),
    {
        let ghost elen = entries@.len() as int;
        let e = match entries.pop() {
            Some(e) => e,
            None => {
                proof {
                    assert(false);
                }
                WindowUsage {
                    process_name: string_from(""),
                    window_name: string_from(""),
                    duration: 0,
                }
            },
        };
        proof {
            assert(entries_all.take(elen).drop_last() =~= entries_all.take(elen - 1));
            assert(entries_all.take(elen).last() == entries_all[elen - 1]);
            assert(e == entries_all[elen - 1]);
        }
        if (e.duration as u128) > thr {
            proof {
                assert(entries_all[elen - 1].duration >= 0);
            }
            let ghost srcs0 = srcs;
            kept.push(e);
            proof {
                srcs = srcs.push(elen - 1);
                assert(forall|i0: int| 0 <= i0 < srcs0.len() ==> #[trigger] srcs[i0] == srcs0[i0]);
                assert(srcs[srcs.len() - 1] == elen - 1);
                assert forall|i1: int|
                    entries@.len() <= i1 < entries_all.len() && (
                    #[trigger] entries_all[i1]).duration > gthr implies exists|i0: int|
                    0 <= i0 < srcs.len() && #[trigger] srcs[i0] == i1 by {
                    if i1 == elen - 1 {
                        assert(srcs[srcs.len() - 1] == i1);
                    } else {
                        let w = choose|w: int| 0 <= w < srcs0.len() && #[trigger] srcs0[w] == i1;
                        assert(srcs[w] == i1);
                    }
                }
            }
        } else {
            proof {
                assert(entries_all[elen - 1].duration >= 0);
                assert(entries_all[elen - 1].duration <= gthr);
            }
        }
    }

    // Order by descending duration.
    let ghost ks = kept@;
    let sorted = sort_windows_by_duration_desc(kept);
    proof {
        broadcast use vstd::seq_lib::group_to_multiset_ensures;
        broadcast use vstd::multiset::group_multiset_axioms;

        let ss = sorted@;
        assert forall|i0: int| 0 <= i0 < ss.len() implies exists|i1: int|
            0 <= i1 < ks.len() && ks[i1] == #[trigger] ss[i0] by {
            assert(ss.contains(ss[i0]));
            assert(ss.to_multiset().count(ss[i0]) > 0);
            assert(ks.to_multiset().count(ss[i0]) > 0);
            assert(ks.contains(ss[i0]));
        }
        assert forall|i0: int, i1: int| 0 <= i0 < i1 < ks.len() implies !(entry_key(
            (#[trigger] ks[i0]).process_name@,
        ) == entry_key((#[trigger] ks[i1]).process_name@) && ks[i0].window_name@
            == ks[i1].window_name@) by {
            assert(ks[i0] == entries_all[srcs[i0]]);
            assert(ks[i1] == entries_all[srcs[i1]]);
            assert(!(kprocs_all[srcs[i0]]@ == kprocs_all[srcs[i1]]@ && kwins_all[srcs[i0]]@
                == kwins_all[srcs[i1]]@));
        }
        assert forall|i0: int, i1: int| 0 <= i0 < i1 < ss.len() implies !(entry_key(
            (#[trigger] ss[i0]).process_name@,
        ) == entry_key((#[trigger] ss[i1]).process_name@) && ss[i0].window_name@
            == ss[i1].window_name@) by {
            if entry_key(ss[i0].process_name@) == entry_key(ss[i1].process_name@)
                && ss[i0].window_name@ == ss[i1].window_name@ {
                let j0 = choose|j0: int| 0 <= j0 < ks.len() && ks[j0] == ss[i0];
                let j1 = choose|j1: int| 0 <= j1 < ks.len() && ks[j1] == ss[i1];
                if j0 != j1 {
                    assert(!(entry_key(ks[j0].process_name@) == entry_key(ks[j1].process_name@)
                        && ks[j0].window_name@ == ks[j1].window_name@));
                } else {
                    assert(ss[i0] == ss[i1]);
                    lemma_dup_count(ss, i0, i1);
                    assert(ks.to_multiset().count(ss[i0]) >= 2);
                    lemma_count_unique_w(ks, j0, ss[i0]);
                }
            }
        }
        assert forall|i0: int| 0 <= i0 < ss.len() implies {
            let kp = entry_key((#[trigger] ss[i0]).process_name@);
            let kw = ss[i0].window_name@;
            &&& listed_w(s, kp, kw, include_afk)
            &&& ss[i0].duration as int == final_dur_w(s, kp, kw, include_afk)
            &&& ss[i0].process_name@ == final_display_w(s, kp, kw, include_afk)
            &&& ss[i0].duration > gthr
        } by {
            let i1 = choose|i1: int| 0 <= i1 < ks.len() && ks[i1] == ss[i0];
            assert(ks[i1] == entries_all[srcs[i1]]);
        }
    }
    proof {
        assert(covers_all_w(s, sorted@, min_percentage, include_afk)) by {
            broadcast use vstd::seq_lib::group_to_multiset_ensures;

            assert forall|kp: Seq<char>, kw: Seq<char>|
                listed_w(s, kp, kw, include_afk) && final_dur_w(s, kp, kw, include_afk)
                    > spec_threshold(s, min_percentage) implies exists|i: int|
                0 <= i < sorted@.len() && entry_key((#[trigger] sorted@[i]).process_name@) == kp
                    && sorted@[i].window_name@ == kw by {
                lemma_listed_w_has_index(s, kp, kw, include_afk, kprocs_all, kwins_all);
                let i1 = choose|i1: int|
                    0 <= i1 < kprocs_all.len() && (#[trigger] kprocs_all[i1])@ == kp
                        && kwins_all[i1]@ == kw;
                assert(entries_all[i1].duration as int == final_dur_w(s, kp, kw, include_afk));
                assert(entries_all[i1].duration > gthr);
                let i3 = choose|i3: int| 0 <= i3 < srcs.len() && #[trigger] srcs[i3] == i1;
                assert(ks[i3] == entries_all[i1]);
                assert(ks.contains(entries_all[i1]));
                assert(ks.to_multiset().count(entries_all[i1]) > 0);
                assert(sorted@.to_multiset().count(entries_all[i1]) > 0);
                assert(sorted@.contains(entries_all[i1]));
                let i4 = choose|i4: int| 0 <= i4 < sorted@.len() && sorted@[i4] == entries_all[i1];
                assert(entry_key(sorted@[i4].process_name@) == kp && sorted@[i4].window_name@
                    == kw);
            }
        }
    }
    (sorted, total)
}

/// Every listed pair has an entry in the pre-filter table.
proof fn lemma_listed_w_has_index(
    s: Seq<IntervalModel>,
    kp: Seq<char>,
    kw: Seq<char>,
    include_afk: bool,
    kprocs: Seq<String>,
    kwins: Seq<String>,
)
    requires
        listed_w(s, kp, kw, include_afk),
        kprocs.len() == kwins.len(),
        forall|i: int|
            0 <= i < s.len() && eligible(#[trigger] s[i], include_afk) ==> exists|i1: int|
                0 <= i1 < kprocs.len() && (#[trigger] kprocs[i1])@ == clean_name(
                    s[i].process_name,
                ) && kwins[i1]@ == s[i].window_name,
        afk_total(s, include_afk) > 0 ==> exists|i1: int|
            0 <= i1 < kprocs.len() && (#[trigger] kprocs[i1])@ == "Inactive"@ && kwins[i1]@ == ""@,
    ensures
        exists|i1: int|
            0 <= i1 < kprocs.len() && (#[trigger] kprocs[i1])@ == kp && kwins[i1]@ == kw,
{
    if key_present_w(s, kp, kw, include_afk) {
        let i = choose|i: int|
            0 <= i < s.len() && eligible(#[trigger] s[i], include_afk) && clean_name(
                s[i].process_name,
            ) == kp && s[i].window_name == kw;
        assert(exists|i1: int|
            0 <= i1 < kprocs.len() && (#[trigger] kprocs[i1])@ == clean_name(s[i].process_name)
                && kwins[i1]@ == s[i].window_name);
    }
}

} // verus!
