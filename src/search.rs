use vstd::prelude::*;

use crate::coalesce::{iter_continuous_range, maximal_runs, run_pairs, step_returns};
use crate::timestamp::VideoTimestamp;

verus! {

broadcast use vstd::seq_lib::group_to_multiset_ensures;

/// A classified frame: its 1-based position in its batch, when it was taken,
/// and whether it shows the marker.
#[derive(Debug, Clone, Copy, PartialEq, Eq, Structural)]
pub struct Sample {
    pub seq: u64,
    pub timestamp: VideoTimestamp,
    pub marked: bool,
}

pub open spec fn sorted_by_seq(s: Seq<Sample>) -> bool {
    forall|i: int, j: int| 0 <= i < j < s.len() ==> s[i].seq <= s[j].seq
}

/// Sorts samples by sequence number, keeping the order of equal ones.
pub fn sort_by_seq(v: &Vec<Sample>) -> (r: Vec<Sample>)
    ensures
        sorted_by_seq(r@),
        r@.to_multiset() == v@.to_multiset(),
{
    let mut out: Vec<Sample> = Vec::new();
    let mut i: usize = 0;
    while i < v.len()
        invariant
            i <= v@.len(),
            sorted_by_seq(out@),
            out@.to_multiset() == v@.subrange(0, i as int).to_multiset(),
        decreases v.len() - i,
    {
        let x = v[i];
        let mut p: usize = 0;
        while p < out.len() && out[p].seq <= x.seq
            invariant
                p <= out@.len(),
                forall|q: int| 0 <= q < p ==> out@[q].seq <= x.seq,
            decreases out.len() - p,
        {
            p = p + 1;
        }
        let ghost before = out@;
        out.insert(p, x);
        assert(v@.subrange(0, i + 1) =~= v@.subrange(0, i as int).push(x));
        assert(out@.to_multiset() =~= before.to_multiset().insert(x));
        i = i + 1;
    }
    assert(v@.subrange(0, v@.len() as int) =~= v@);
    out
}

/// The samples that show the marker, in order.
pub open spec fn marked_of(s: Seq<Sample>) -> Seq<Sample>
    decreases s.len(),
{
    if s.len() == 0 {
        Seq::empty()
    } else if s.last().marked {
        marked_of(s.drop_last()).push(s.last())
    } else {
        marked_of(s.drop_last())
    }
}

pub fn marked_only(v: &Vec<Sample>) -> (r: Vec<Sample>)
    ensures
        r@ == marked_of(v@),
{
    let mut out: Vec<Sample> = Vec::new();
    let mut i: usize = 0;
    while i < v.len()
        invariant
            i <= v@.len(),
            out@ == marked_of(v@.subrange(0, i as int)),
        decreases v.len() - i,
    {
        assert(v@.subrange(0, i + 1).drop_last() =~= v@.subrange(0, i as int));
        if v[i].marked {
            out.push(v[i]);
        }
        i = i + 1;
    }
    assert(v@.subrange(0, v@.len() as int) =~= v@);
    out
}

/// Two samples follow each other when their sequence numbers differ by one.
pub open spec fn consecutive(a: Sample, b: Sample) -> bool {
    a.seq + 1 == b.seq
}

/// `pairs` are the first and last samples of the maximal runs of `s` in which
/// each sample follows the one before.
pub open spec fn sequence_runs(s: Seq<Sample>, pairs: Seq<(Sample, Sample)>) -> bool {
    exists|runs: Seq<(int, int)>|
        #![trigger run_pairs(s, runs, pairs)]
        {
            &&& maximal_runs(
                runs,
                s.len() as int,
                |j: int| consecutive(s[j], s[j + 1]),
                |j: int| !consecutive(s[j], s[j + 1]),
            )
            &&& run_pairs(s, runs, pairs)
        }
}

/// Merges samples into runs of consecutive sequence numbers.
pub fn coalesce_by_sequence(samples: &Vec<Sample>) -> (r: Vec<(Sample, Sample)>)
    ensures
        sequence_runs(samples@, r@),
{
    let f = |a: &Sample, b: &Sample| -> (c: bool)
        ensures
            c == (a.seq + 1 == b.seq),
        { b.seq >= 1 && a.seq == b.seq - 1 };
    let r = iter_continuous_range(samples, f);
    proof {
        let s = samples@;
        let runs = choose|runs: Seq<(int, int)>|
            #![trigger run_pairs(s, runs, r@)]
            {
                &&& maximal_runs(
                    runs,
                    s.len() as int,
                    |j: int| step_returns(f, s, j, true),
                    |j: int| step_returns(f, s, j, false),
                )
                &&& run_pairs(s, runs, r@)
            };
        let jl = |j: int| step_returns(f, s, j, true);
        let sl = |j: int| step_returns(f, s, j, false);
        assert(maximal_runs(runs, s.len() as int, jl, sl));
        assert forall|k: int, j: int|
            #![trigger runs[k], consecutive(s[j], s[j + 1])]
            0 <= k < runs.len() && runs[k].0 <= j < runs[k].1 implies consecutive(
            s[j],
            s[j + 1],
        ) by {
            assert(jl(j));
        }
        assert forall|k: int| 0 <= k < runs.len() - 1 implies !consecutive(
            s[#[trigger] runs[k].1],
            s[runs[k].1 + 1],
        ) by {
            assert(sl(runs[k].1));
        }
        assert(maximal_runs(
            runs,
            s.len() as int,
            |j: int| consecutive(s[j], s[j + 1]),
            |j: int| !consecutive(s[j], s[j + 1]),
        ));
        assert(run_pairs(s, runs, r@));
    }
    r
}

/// Candidate ranges at most this long (in milliseconds) are taken for noise.
pub const MIN_MARKER_MS: u64 = 4000;

/// The range from its first to its last sample lasts longer than `MIN_MARKER_MS`.
pub open spec fn long_enough(r: (Sample, Sample)) -> bool {
    r.1.timestamp.total_ms() - r.0.timestamp.total_ms() > MIN_MARKER_MS
}

/// The ranges that last long enough, in order.
pub open spec fn long_ranges(s: Seq<(Sample, Sample)>) -> Seq<(Sample, Sample)>
    decreases s.len(),
{
    if s.len() == 0 {
        Seq::empty()
    } else if long_enough(s.last()) {
        long_ranges(s.drop_last()).push(s.last())
    } else {
        long_ranges(s.drop_last())
    }
}

fn is_long_enough(r: &(Sample, Sample)) -> (b: bool)
    ensures
        b == long_enough(*r),
{
    let start: u128 = r.0.timestamp.seconds as u128 * 1000 + r.0.timestamp.milliseconds as u128;
    let end: u128 = r.1.timestamp.seconds as u128 * 1000 + r.1.timestamp.milliseconds as u128;
    end > start + MIN_MARKER_MS as u128
}

/// Drops the ranges that do not last longer than `MIN_MARKER_MS`.
pub fn drop_short(ranges: &Vec<(Sample, Sample)>) -> (r: Vec<(Sample, Sample)>)
    ensures
        r@ == long_ranges(ranges@),
{
    let mut out: Vec<(Sample, Sample)> = Vec::new();
    let mut i: usize = 0;
    while i < ranges.len()
        invariant
            i <= ranges@.len(),
            out@ == long_ranges(ranges@.subrange(0, i as int)),
        decreases ranges.len() - i,
    {
        assert(ranges@.subrange(0, i + 1).drop_last() =~= ranges@.subrange(0, i as int));
        if is_long_enough(&ranges[i]) {
            out.push(ranges[i]);
        }
        i = i + 1;
    }
    assert(ranges@.subrange(0, ranges@.len() as int) =~= ranges@);
    out
}

/// The candidate ranges of a coarse pass: the marked samples, ordered by
/// sequence number, merged into runs of consecutive sequence numbers, keeping
/// the runs that last longer than `MIN_MARKER_MS`.
pub open spec fn candidates_of(samples: Seq<Sample>, r: Seq<(Sample, Sample)>) -> bool {
    exists|sorted: Seq<Sample>, runs: Seq<(Sample, Sample)>|
        #![trigger sequence_runs(sorted, runs)]
        {
            &&& sorted_by_seq(sorted)
            &&& sorted.to_multiset() == marked_of(samples).to_multiset()
            &&& sequence_runs(sorted, runs)
            &&& r == long_ranges(runs)
        }
}

/// Finds the candidate ranges among the classified frames of a coarse pass,
/// given in any order.
pub fn coarse_candidates(samples: &Vec<Sample>) -> (r: Vec<(Sample, Sample)>)
    ensures
        candidates_of(samples@, r@),
{
    let marked = marked_only(samples);
    let sorted = sort_by_seq(&marked);
    let runs = coalesce_by_sequence(&sorted);
    let r = drop_short(&runs);
    assert(sequence_runs(sorted@, runs@));
    r
}

/// The window `[t - 2 s, t + 2 s]` that is sampled again around a rough
/// boundary; it starts no earlier than the start of the video.
pub fn refine_window(t: VideoTimestamp) -> (r: (VideoTimestamp, VideoTimestamp))
    requires
        t.seconds + 2 <= u64::MAX,
    ensures
        t.seconds < 2 ==> r.0.seconds == 0 && r.0.milliseconds == 0,
        t.seconds >= 2 ==> r.0.seconds == t.seconds - 2 && r.0.milliseconds == t.milliseconds,
        r.1.seconds == t.seconds + 2,
        r.1.milliseconds == t.milliseconds,
{
    (t.add_seconds(-2), t.add_seconds(2))
}

/// The first sample (in order) that shows the marker.
pub open spec fn is_first_marked(s: Seq<Sample>, i: int) -> bool {
    0 <= i < s.len() && s[i].marked && forall|k: int| 0 <= k < i ==> !(#[trigger] s[k]).marked
}

/// A marked sample followed by an unmarked one.
pub open spec fn is_marker_end(s: Seq<Sample>, i: int) -> bool {
    0 <= i && i + 1 < s.len() && s[i].marked && !s[i + 1].marked
}

/// The position of the first marked sample.
pub fn first_marked(s: &Vec<Sample>) -> (r: Option<usize>)
    ensures
        r matches Some(i) ==> is_first_marked(s@, i as int),
        r is None ==> forall|k: int| 0 <= k < s@.len() ==> !(#[trigger] s@[k]).marked,
{
    let mut i: usize = 0;
    while i < s.len()
        invariant
            i <= s@.len(),
            forall|k: int| 0 <= k < i ==> !(#[trigger] s@[k]).marked,
        decreases s.len() - i,
    {
        if s[i].marked {
            return Some(i);
        }
        i = i + 1;
    }
    None
}

/// The position of the last marked sample that is followed by an unmarked one.
pub fn last_marker_end(s: &Vec<Sample>) -> (r: Option<usize>)
    ensures
        r matches Some(i) ==> is_marker_end(s@, i as int) && forall|k: int|
            i < k ==> !#[trigger] is_marker_end(s@, k),
        r is None ==> forall|k: int| !#[trigger] is_marker_end(s@, k),
{
    let n = s.len();
    if n < 2 {
        return None;
    }
    let mut i: usize = n - 1;
    while i > 0
        invariant
            n == s@.len(),
            i < n,
            forall|k: int| i <= k ==> !#[trigger] is_marker_end(s@, k),
        decreases i,
    {
        if s[i - 1].marked && !s[i].marked {
            return Some(i - 1);
        }
        i = i - 1;
    }
    None
}

/// Which boundary of a candidate range a refinement could not find.
#[derive(Debug, Clone, Copy, PartialEq, Eq, Structural)]
pub enum Boundary {
    Start,
    End,
}

/// Why a search failed.
#[derive(Debug, Clone, Copy, PartialEq, Eq, Structural)]
pub enum SearchError {
    /// The window sampled around a rough boundary holds no such boundary.
    BoundaryNotFound(Boundary),
    /// The end boundary found does not come after the start boundary found.
    EmptyRange,
}

/// The last marked sample that is followed by an unmarked one.
pub open spec fn is_last_marker_end(s: Seq<Sample>, j: int) -> bool {
    is_marker_end(s, j) && forall|k: int| j < k ==> !#[trigger] is_marker_end(s, k)
}

/// The boundaries found in the two windows: the first marked sample of the
/// start window and the last end of a marked stretch in the end window.
pub open spec fn found_boundaries(
    start_window: Seq<Sample>,
    end_window: Seq<Sample>,
    a: VideoTimestamp,
    b: VideoTimestamp,
) -> bool {
    exists|i: int, j: int|
        #![trigger start_window[i], end_window[j]]
        is_first_marked(start_window, i) && is_last_marker_end(end_window, j) && a
            == start_window[i].timestamp && b == end_window[j].timestamp
}

/// Finds the exact boundaries of a candidate range from the classified frames
/// of the windows around its rough start and its rough end, each ordered by
/// sequence number: the start is the first marked frame of its window, the end
/// the last marked frame of its window that the next frame does not follow.
/// A refined range always starts before it ends.
pub fn refine_boundaries(start_window: &Vec<Sample>, end_window: &Vec<Sample>) -> (r: Result<
    (VideoTimestamp, VideoTimestamp),
    SearchError,
>)
    ensures
        match r {
            Ok((a, b)) => found_boundaries(start_window@, end_window@, a, b) && a.before(b),
            Err(SearchError::BoundaryNotFound(Boundary::Start)) => forall|k: int|
                0 <= k < start_window@.len() ==> !(#[trigger] start_window@[k]).marked,
            Err(SearchError::BoundaryNotFound(Boundary::End)) => (exists|i: int|
                is_first_marked(start_window@, i)) && forall|k: int|
                !#[trigger] is_marker_end(end_window@, k),
            Err(SearchError::EmptyRange) => exists|a: VideoTimestamp, b: VideoTimestamp|
                found_boundaries(start_window@, end_window@, a, b) && !a.before(b),
        },
{
    let i = match first_marked(start_window) {
        Some(i) => i,
        None => {
            return Err(SearchError::BoundaryNotFound(Boundary::Start));
        },
    };
    let j = match last_marker_end(end_window) {
        Some(j) => j,
        None => {
            assert(is_first_marked(start_window@, i as int));
            return Err(SearchError::BoundaryNotFound(Boundary::End));
        },
    };
    let a = start_window[i].timestamp;
    let b = end_window[j].timestamp;
    assert(is_first_marked(start_window@, i as int) && is_last_marker_end(end_window@, j as int));
    assert(found_boundaries(start_window@, end_window@, a, b));
    if a.lt(&b) {
        Ok((a, b))
    } else {
        Err(SearchError::EmptyRange)
    }
}

/// Samples in order of increasing timestamp, each at most `step`
/// milliseconds after the one before.
pub open spec fn spaced_by(s: Seq<Sample>, step: int) -> bool {
    forall|k: int|
        0 <= k < s.len() - 1 ==> #[trigger] s[k].timestamp.total_ms() < s[k
            + 1].timestamp.total_ms() <= s[k].timestamp.total_ms() + step
}

/// The marker shows in a sample exactly when it was taken in
/// `[start_ms, end_ms)`.
pub open spec fn marked_between(s: Seq<Sample>, start_ms: int, end_ms: int) -> bool {
    forall|k: int|
        0 <= k < s.len() ==> ((#[trigger] s[k]).marked <==> start_ms <= s[k].timestamp.total_ms()
            < end_ms)
}

/// A refined start is exact to one sampling step: where a window's samples
/// are at most `step` milliseconds apart, begin before the marker appears at
/// `start_ms`, and show it until `end_ms`, the first marked sample is taken
/// in `[start_ms, start_ms + step)`.
pub proof fn lemma_start_within_one_step(
    s: Seq<Sample>,
    i: int,
    start_ms: int,
    end_ms: int,
    step: int,
)
    requires
        is_first_marked(s, i),
        marked_between(s, start_ms, end_ms),
        spaced_by(s, step),
        s[0].timestamp.total_ms() < start_ms,
    ensures
        start_ms <= s[i].timestamp.total_ms() < start_ms + step,
{
    assert(!s[0].marked);
    assert(i > 0);
    assert(!s[i - 1].marked);
    assert(s[i - 1].timestamp.total_ms() < s[i].timestamp.total_ms());
}

/// A refined end is exact to one sampling step: where a window's samples are
/// at most `step` milliseconds apart and show the marker from `start_ms` until
/// it disappears at `end_ms`, a marked sample followed by an unmarked one is
/// taken in `[end_ms - step, end_ms)`.
pub proof fn lemma_end_within_one_step(
    s: Seq<Sample>,
    j: int,
    start_ms: int,
    end_ms: int,
    step: int,
)
    requires
        is_marker_end(s, j),
        marked_between(s, start_ms, end_ms),
        spaced_by(s, step),
    ensures
        end_ms - step <= s[j].timestamp.total_ms() < end_ms,
{
    assert(s[j].marked);
    assert(!s[j + 1].marked);
    assert(s[j].timestamp.total_ms() < s[j + 1].timestamp.total_ms());
}

/// A refined range is exact to one sampling step at both ends: where both
/// windows are sampled at most `step` milliseconds apart, the marker shows
/// exactly from `start_ms` to `end_ms`, and the start window begins before
/// `start_ms`, the boundaries that `refine_boundaries` finds lie within one
/// step inside the true ones.
pub proof fn lemma_refined_range_accurate(
    start_window: Seq<Sample>,
    end_window: Seq<Sample>,
    a: VideoTimestamp,
    b: VideoTimestamp,
    start_ms: int,
    end_ms: int,
    step: int,
)
    requires
        found_boundaries(start_window, end_window, a, b),
        marked_between(start_window, start_ms, end_ms),
        marked_between(end_window, start_ms, end_ms),
        spaced_by(start_window, step),
        spaced_by(end_window, step),
        start_window.len() > 0 ==> start_window[0].timestamp.total_ms() < start_ms,
    ensures
        start_ms <= a.total_ms() < start_ms + step,
        end_ms - step <= b.total_ms() < end_ms,
{
    let (i, j) = choose|i: int, j: int|
        #![trigger start_window[i], end_window[j]]
        is_first_marked(start_window, i) && is_last_marker_end(end_window, j) && a
            == start_window[i].timestamp && b == end_window[j].timestamp;
    lemma_start_within_one_step(start_window, i, start_ms, end_ms, step);
    lemma_end_within_one_step(end_window, j, start_ms, end_ms, step);
}

/// Every candidate that the duration filter keeps lasts longer than
/// `MIN_MARKER_MS`: a shorter match never reaches refinement.
pub proof fn lemma_kept_ranges_are_long(s: Seq<(Sample, Sample)>)
    ensures
        forall|k: int|
            0 <= k < long_ranges(s).len() ==> long_enough(#[trigger] long_ranges(s)[k]),
    decreases s.len(),
{
    if s.len() > 0 {
        lemma_kept_ranges_are_long(s.drop_last());
        let prev = long_ranges(s.drop_last());
        if long_enough(s.last()) {
            assert forall|k: int| 0 <= k < long_ranges(s).len() implies long_enough(
                #[trigger] long_ranges(s)[k],
            ) by {
                if k < prev.len() {
                    assert(long_ranges(s)[k] == prev[k]);
                }
            }
        }
    }
}

/// The refined ranges of one video, in ascending order.
pub struct ClipsInfo {
    pub ranges: Vec<(VideoTimestamp, VideoTimestamp)>,
}

/// Ranges in ascending order: by start, then by end.
pub open spec fn range_le(a: (VideoTimestamp, VideoTimestamp), b: (VideoTimestamp, VideoTimestamp)) -> bool {
    a.0.before(b.0) || (a.0 == b.0 && (a.1.before(b.1) || a.1 == b.1))
}

pub open spec fn sorted_ranges(s: Seq<(VideoTimestamp, VideoTimestamp)>) -> bool {
    forall|i: int, j: int| 0 <= i < j < s.len() ==> range_le(s[i], s[j])
}

fn range_le_exec(a: &(VideoTimestamp, VideoTimestamp), b: &(VideoTimestamp, VideoTimestamp)) -> (r: bool)
    ensures
        r == range_le(*a, *b),
{
    a.0.lt(&b.0) || (a.0 == b.0 && (a.1.lt(&b.1) || a.1 == b.1))
}

proof fn lemma_range_le_total(a: (VideoTimestamp, VideoTimestamp), b: (VideoTimestamp, VideoTimestamp))
    ensures
        range_le(a, b) || range_le(b, a),
{
}

proof fn lemma_range_le_trans(
    a: (VideoTimestamp, VideoTimestamp),
    b: (VideoTimestamp, VideoTimestamp),
    c: (VideoTimestamp, VideoTimestamp),
)
    requires
        range_le(a, b),
        range_le(b, c),
    ensures
        range_le(a, c),
{
}

/// Puts the refined ranges of a video in ascending order of start (and of end
/// where starts are equal), whatever order they were found in.
pub fn assemble(ranges: &Vec<(VideoTimestamp, VideoTimestamp)>) -> (r: Vec<
    (VideoTimestamp, VideoTimestamp),
>)
    ensures
        sorted_ranges(r@),
        r@.to_multiset() == ranges@.to_multiset(),
        (forall|k: int| 0 <= k < ranges@.len() ==> (#[trigger] ranges@[k]).0.before(ranges@[k].1))
            ==> forall|k: int| 0 <= k < r@.len() ==> (#[trigger] r@[k]).0.before(r@[k].1),
{
    let mut out: Vec<(VideoTimestamp, VideoTimestamp)> = Vec::new();
    let mut i: usize = 0;
    while i < ranges.len()
        invariant
            i <= ranges@.len(),
            sorted_ranges(out@),
            out@.to_multiset() == ranges@.subrange(0, i as int).to_multiset(),
        decreases ranges.len() - i,
    {
        let x = ranges[i];
        let mut p: usize = 0;
        while p < out.len() && range_le_exec(&out[p], &x)
            invariant
                p <= out@.len(),
                forall|q: int| 0 <= q < p ==> range_le(out@[q], x),
            decreases out.len() - p,
        {
            p = p + 1;
        }
        let ghost before = out@;
        proof {
            if p < before.len() {
                lemma_range_le_total(before[p as int], x);
            }
        }
        out.insert(p, x);
        proof {
            assert forall|u: int, w: int| 0 <= u < w < out@.len() implies range_le(
                out@[u],
                out@[w],
            ) by {
                if w < p {
                } else if w == p {
                } else if u < p {
                    lemma_range_le_trans(out@[u], x, before[p as int]);
                    if w - 1 > p {
                        lemma_range_le_trans(out@[u], before[p as int], before[w - 1]);
                    }
                } else if u == p {
                    if w - 1 > p {
                        lemma_range_le_trans(x, before[p as int], before[w - 1]);
                    }
                } else {
                }
            }
        }
        assert(ranges@.subrange(0, i + 1) =~= ranges@.subrange(0, i as int).push(x));
        assert(out@.to_multiset() =~= before.to_multiset().insert(x));
        i = i + 1;
    }
    assert(ranges@.subrange(0, ranges@.len() as int) =~= ranges@);
    proof {
        assert forall|k: int| 0 <= k < out@.len() implies ranges@.contains(#[trigger] out@[k]) by {
            assert(out@.to_multiset().count(out@[k]) > 0);
        }
    }
    out
}

/// The order of ranges in ascending order is fixed by the ranges alone: two
/// sorted lists that hold the same ranges are equal, so the order in which
/// parallel refinements finish does not change the result.
pub proof fn lemma_sorted_ranges_unique(
    a: Seq<(VideoTimestamp, VideoTimestamp)>,
    b: Seq<(VideoTimestamp, VideoTimestamp)>,
)
    requires
        sorted_ranges(a),
        sorted_ranges(b),
        a.to_multiset() == b.to_multiset(),
    ensures
        a == b,
    decreases a.len(),
{
    vstd::seq_lib::to_multiset_len(a);
    vstd::seq_lib::to_multiset_len(b);
    assert(a.len() == b.len());
    if a.len() > 0 {
        assert(a.to_multiset().count(a[0]) > 0) by {
            assert(a.contains(a[0]));
        }
        assert(b.contains(a[0]));
        assert(b.to_multiset().count(b[0]) > 0) by {
            assert(b.contains(b[0]));
        }
        assert(a.contains(b[0]));
        let j = choose|j: int| 0 <= j < b.len() && b[j] == a[0];
        let i = choose|i: int| 0 <= i < a.len() && a[i] == b[0];
        if j > 0 {
            assert(range_le(b[0], b[j]));
        }
        if i > 0 {
            assert(range_le(a[0], a[i]));
        }
        assert(a[0] == b[0]);
        let a1 = a.remove(0);
        let b1 = b.remove(0);
        assert(a1.to_multiset() == b1.to_multiset());
        assert(sorted_ranges(a1)) by {
            assert forall|x: int, y: int| 0 <= x < y < a1.len() implies range_le(a1[x], a1[y]) by {
                assert(a1[x] == a[x + 1] && a1[y] == a[y + 1]);
            }
        }
        assert(sorted_ranges(b1)) by {
            assert forall|x: int, y: int| 0 <= x < y < b1.len() implies range_le(b1[x], b1[y]) by {
                assert(b1[x] == b[x + 1] && b1[y] == b[y + 1]);
            }
        }
        lemma_sorted_ranges_unique(a1, b1);
        assert(a =~= b) by {
            assert forall|k: int| 0 <= k < a.len() implies a[k] == b[k] by {
                if k > 0 {
                    assert(a[k] == a1[k - 1]);
                    assert(b[k] == b1[k - 1]);
                }
            }
        }
    }
}

} // verus!
