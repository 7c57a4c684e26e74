use vstd::prelude::*;

verus! {

/// `runs` splits the positions `0 .. n` into consecutive, non-empty, inclusive
/// index ranges `(first, last)`, in order.
pub open spec fn covers(runs: Seq<(int, int)>, n: int) -> bool {
    &&& (n == 0 <==> runs.len() == 0)
    &&& runs.len() > 0 ==> runs[0].0 == 0 && runs.last().1 == n - 1
    &&& forall|k: int| 0 <= k < runs.len() ==> #[trigger] runs[k].0 <= runs[k].1
    &&& forall|k: int| 0 < k < runs.len() ==> #[trigger] runs[k].0 == runs[k - 1].1 + 1
}

/// Every step inside a run is joined, and every step from one run to the
/// next is split.
pub open spec fn maximal(
    runs: Seq<(int, int)>,
    joined: spec_fn(int) -> bool,
    split: spec_fn(int) -> bool,
) -> bool {
    &&& forall|k: int, j: int|
        #![trigger runs[k], joined(j)]
        0 <= k < runs.len() && runs[k].0 <= j < runs[k].1 ==> joined(j)
    &&& forall|k: int| 0 <= k < runs.len() - 1 ==> #[trigger] split(runs[k].1)
}

/// The maximal runs of `n` positions, where step `j` (from `j` to `j + 1`)
/// is joined or split as the two predicates say.
pub open spec fn maximal_runs(
    runs: Seq<(int, int)>,
    n: int,
    joined: spec_fn(int) -> bool,
    split: spec_fn(int) -> bool,
) -> bool {
    covers(runs, n) && maximal(runs, joined, split)
}

/// `pairs` holds the first and last item of each run, in order.
pub open spec fn run_pairs<T>(s: Seq<T>, runs: Seq<(int, int)>, pairs: Seq<(T, T)>) -> bool {
    &&& pairs.len() == runs.len()
    &&& forall|k: int| 0 <= k < runs.len() ==> #[trigger] pairs[k] == (s[runs[k].0], s[runs[k].1])
}

/// A call of `f` on the items at `j` and `j + 1` may return `b`.
pub open spec fn step_returns<T, FC: Fn(&T, &T) -> bool>(f: FC, s: Seq<T>, j: int, b: bool) -> bool {
    f.ensures((&s[j], &s[j + 1]), b)
}

/// Merges a sequence into its maximal runs of items in which each item is
/// continuous with the next, and returns the first and last item of each run.
/// The predicate is called once for each pair of neighbouring items.
pub fn iter_continuous_range<T: Copy, FC: Fn(&T, &T) -> bool>(
    items: &Vec<T>,
    is_continuous: FC,
) -> (r: Vec<(T, T)>)
    requires
        forall|a: &T, b: &T| is_continuous.requires((a, b)),
    ensures
        exists|runs: Seq<(int, int)>|
            #![trigger run_pairs(items@, runs, r@)]
            {
                &&& maximal_runs(
                    runs,
                    items@.len() as int,
                    |j: int| step_returns(is_continuous, items@, j, true),
                    |j: int| step_returns(is_continuous, items@, j, false),
                )
                &&& run_pairs(items@, runs, r@)
            },
{
    let mut out: Vec<(T, T)> = Vec::new();
    let ghost mut runs: Seq<(int, int)> = Seq::empty();
    let n = items.len();
    if n == 0 {
        assert(maximal_runs(
            runs,
            0,
            |j: int| step_returns(is_continuous, items@, j, true),
            |j: int| step_returns(is_continuous, items@, j, false),
        ));
        assert(run_pairs(items@, runs, out@));
        return out;
    }
    let mut start: usize = 0;
    let mut i: usize = 0;
    while i + 1 < n
        invariant
            n == items@.len(),
            start <= i < n,
            covers(runs, start as int),
            forall|k: int|
                0 <= k < runs.len() ==> step_returns(is_continuous, items@, #[trigger] runs[k].1, false),
            forall|k: int, j: int|
                #![trigger runs[k], step_returns(is_continuous, items@, j, true)]
                0 <= k < runs.len() && runs[k].0 <= j < runs[k].1 ==> step_returns(is_continuous, items@, j, true),
            forall|j: int| start <= j < i ==> #[trigger] step_returns(is_continuous, items@, j, true),
            forall|a: &T, b: &T| is_continuous.requires((a, b)),
            out@.len() == runs.len(),
            forall|k: int|
                0 <= k < runs.len() ==> #[trigger] out@[k] == (
                    items@[runs[k].0],
                    items@[runs[k].1],
                ),
        decreases n - i,
    {
        let a = &items[i];
        let b = &items[i + 1];
        assert(*a == items@[i as int] && *b == items@[i + 1]);
        let c = is_continuous(a, b);
        assert(step_returns(is_continuous, items@, i as int, c));
        if !c {
            out.push((items[start], items[i]));
            proof {
                runs = runs.push((start as int, i as int));
            }
            start = i + 1;
        }
        i = i + 1;
    }
    out.push((items[start], items[n - 1]));
    proof {
        runs = runs.push((start as int, (n - 1) as int));
        assert(maximal_runs(
            runs,
            n as int,
            |j: int| step_returns(is_continuous, items@, j, true),
            |j: int| step_returns(is_continuous, items@, j, false),
        ));
        assert(run_pairs(items@, runs, out@));
    }
    out
}

proof fn lemma_ends_bounded(runs: Seq<(int, int)>, n: int, k: int)
    requires
        covers(runs, n),
        0 <= k < runs.len(),
    ensures
        runs[k].1 <= n - 1,
        0 <= runs[k].0,
    decreases runs.len() - k,
{
    if k < runs.len() - 1 {
        lemma_ends_bounded(runs, n, k + 1);
        assert(runs[k + 1].0 <= runs[k + 1].1);
    }
    if k > 0 {
        lemma_starts_nonneg(runs, n, k);
    }
}

proof fn lemma_starts_nonneg(runs: Seq<(int, int)>, n: int, k: int)
    requires
        covers(runs, n),
        0 <= k < runs.len(),
    ensures
        0 <= runs[k].0,
    decreases k,
{
    if k > 0 {
        lemma_starts_nonneg(runs, n, k - 1);
        assert(runs[k - 1].0 <= runs[k - 1].1);
    }
}

proof fn lemma_runs_agree(
    r1: Seq<(int, int)>,
    r2: Seq<(int, int)>,
    n: int,
    joined: spec_fn(int) -> bool,
    k: int,
)
    requires
        maximal_runs(r1, n, joined, |j: int| !joined(j)),
        maximal_runs(r2, n, joined, |j: int| !joined(j)),
        0 <= k < r1.len(),
        k < r2.len(),
    ensures
        r1[k] == r2[k],
    decreases k,
{
    let split = |j: int| !joined(j);
    if k > 0 {
        lemma_runs_agree(r1, r2, n, joined, k - 1);
    }
    assert(r1[k].0 == r2[k].0);
    lemma_ends_bounded(r1, n, k);
    lemma_ends_bounded(r2, n, k);
    let e1 = r1[k].1;
    let e2 = r2[k].1;
    if e1 < e2 && k < r1.len() - 1 {
        assert(split(e1));
        assert(joined(e1));
    }
    if e2 < e1 && k < r2.len() - 1 {
        assert(split(e2));
        assert(joined(e2));
    }
}

/// Maximal runs are unique: where each step is either joined or split, any two
/// splittings into maximal runs are the same.
pub proof fn lemma_maximal_runs_unique(
    r1: Seq<(int, int)>,
    r2: Seq<(int, int)>,
    n: int,
    joined: spec_fn(int) -> bool,
)
    requires
        maximal_runs(r1, n, joined, |j: int| !joined(j)),
        maximal_runs(r2, n, joined, |j: int| !joined(j)),
    ensures
        r1 == r2,
{
    let m: int = if r1.len() < r2.len() {
        r1.len() as int
    } else {
        r2.len() as int
    };
    assert forall|i: int| 0 <= i < m implies r1[i] == r2[i] by {
        lemma_runs_agree(r1, r2, n, joined, i);
    }
    if r1.len() < r2.len() {
        if r1.len() > 0 {
            assert(r1[m - 1] == r2[m - 1]);
            lemma_ends_bounded(r2, n, m);
        }
    }
    if r2.len() < r1.len() {
        if r2.len() > 0 {
            assert(r1[m - 1] == r2[m - 1]);
            lemma_ends_bounded(r1, n, m);
        }
    }
    assert(r1 =~= r2);
}

proof fn lemma_run_values(xs: Seq<int>, runs: Seq<(int, int)>, k: int, j: int)
    requires
        covers(runs, xs.len() as int),
        maximal(runs, |j: int| xs[j] + 1 == xs[j + 1], |j: int| xs[j] + 1 != xs[j + 1]),
        0 <= k < runs.len(),
        runs[k].0 <= j <= runs[k].1,
    ensures
        xs[j] == xs[runs[k].0] + (j - runs[k].0),
    decreases j - runs[k].0,
{
    let jl = |j: int| xs[j] + 1 == xs[j + 1];
    if j > runs[k].0 {
        lemma_run_values(xs, runs, k, j - 1);
        assert(jl(j - 1));
    }
}

/// The coalescer on sorted integers with "differs by one": for a strictly
/// increasing sequence split into its maximal runs, each run holds every
/// integer from its first item to its last, in order (so the runs, laid end to
/// end, give back the sequence), and each run ends more than one below the
/// start of the next.
pub proof fn lemma_integer_runs(xs: Seq<int>, runs: Seq<(int, int)>, pairs: Seq<(int, int)>)
    requires
        forall|i: int, j: int| 0 <= i < j < xs.len() ==> xs[i] < xs[j],
        maximal_runs(
            runs,
            xs.len() as int,
            |j: int| xs[j] + 1 == xs[j + 1],
            |j: int| xs[j] + 1 != xs[j + 1],
        ),
        run_pairs(xs, runs, pairs),
    ensures
        forall|k: int, j: int|
            #![trigger pairs[k], xs[j]]
            0 <= k < runs.len() && runs[k].0 <= j <= runs[k].1 ==> xs[j] == pairs[k].0 + (j
                - runs[k].0),
        forall|k: int|
            0 <= k < runs.len() ==> #[trigger] pairs[k].1 - pairs[k].0 == runs[k].1 - runs[k].0,
        forall|k: int| 0 <= k < runs.len() - 1 ==> #[trigger] pairs[k].1 + 1 < pairs[k + 1].0,
{
    let sl = |j: int| xs[j] + 1 != xs[j + 1];
    assert forall|k: int, j: int|
        #![trigger pairs[k], xs[j]]
        0 <= k < runs.len() && runs[k].0 <= j <= runs[k].1 implies xs[j] == pairs[k].0 + (j
            - runs[k].0) by {
        lemma_run_values(xs, runs, k, j);
    }
    assert forall|k: int| 0 <= k < runs.len() implies #[trigger] pairs[k].1 - pairs[k].0
        == runs[k].1 - runs[k].0 by {
        lemma_run_values(xs, runs, k, runs[k].1);
    }
    assert forall|k: int| 0 <= k < runs.len() - 1 implies #[trigger] pairs[k].1 + 1 < pairs[k
        + 1].0 by {
        let e = runs[k].1;
        lemma_ends_bounded(runs, xs.len() as int, k);
        lemma_ends_bounded(runs, xs.len() as int, k + 1);
        assert(sl(e));
        assert(runs[k + 1].0 == e + 1);
        assert(xs[e] < xs[e + 1]);
    }
}

} // verus!
