use vstd::prelude::*;
use vstd::string::StringExecFns;

verus! {

/// The part of a catalog entry that describes a video.
pub struct PlaylistItemSnippet {
    pub title: String,
}

/// A video of the catalog.
pub struct CatalogEntry {
    pub video_id: String,
    pub snippet: PlaylistItemSnippet,
    /// When the video was published, in milliseconds since the Unix epoch.
    pub published_ms: i64,
}

/// Whether `text` matches the regular expression `pattern` somewhere; false
/// where `pattern` is not a valid expression.
pub uninterp spec fn regex_is_match(pattern: Seq<char>, text: Seq<char>) -> bool;

/// Relies on regex's `Regex::new`, which compiles `pattern` or reports that it
/// is invalid, and `Regex::is_match`, which tells whether the compiled
/// expression matches anywhere in `text`. Both depend on their arguments alone.
#[verifier::external_body]
fn pattern_matches(pattern: &str, text: &str) -> (r: bool)
    ensures
        r == regex_is_match(pattern@, text@),
{
    match regex::Regex::new(pattern) {
        Ok(re) => re.is_match(text),
        Err(_) => false,
    }
}

/// The one video that is never searched.
pub open spec fn skipped_video() -> Seq<char> {
    "lED1vIbaivA"@
}

/// Titles of complete-season compilations, which are not searched.
pub open spec fn compilation_pattern() -> Seq<char> {
    "The Complete (.*) Season"@
}

/// An entry that is left out of a search.
pub open spec fn excluded(e: CatalogEntry) -> bool {
    e.video_id@ == skipped_video() || regex_is_match(compilation_pattern(), e.snippet.title@)
}

/// The position of the first entry with the identifier `id`, or the number of
/// entries where there is none.
pub open spec fn position_of(items: Seq<CatalogEntry>, id: Seq<char>) -> int
    decreases items.len(),
{
    if items.len() == 0 {
        0
    } else if items[0].video_id@ == id {
        0
    } else {
        1 + position_of(items.subrange(1, items.len() as int), id)
    }
}

/// The identifiers of the entries that are not left out, in order.
pub open spec fn kept_ids(items: Seq<CatalogEntry>) -> Seq<Seq<char>>
    decreases items.len(),
{
    if items.len() == 0 {
        Seq::empty()
    } else if excluded(items.last()) {
        kept_ids(items.drop_last())
    } else {
        kept_ids(items.drop_last()).push(items.last().video_id@)
    }
}

/// The videos to search: from the entry with identifier `from` on (from the
/// first entry where `from` is `None`; none where no entry has it), less the
/// entries that are left out.
pub open spec fn selected_ids(items: Seq<CatalogEntry>, from: Option<Seq<char>>) -> Seq<Seq<char>> {
    let start = match from {
        Some(f) => position_of(items, f),
        None => 0,
    };
    kept_ids(items.subrange(start, items.len() as int))
}

fn is_excluded(e: &CatalogEntry) -> (r: bool)
    ensures
        r == excluded(*e),
{
    let skipped = String::from_str("lED1vIbaivA");
    e.video_id == skipped || pattern_matches("The Complete (.*) Season", e.snippet.title.as_str())
}

/// The identifiers of the videos to search, in catalog order.
pub fn select_videos(items: &Vec<CatalogEntry>, from_id: &Option<String>) -> (r: Vec<String>)
    ensures
        r@.map_values(|s: String| s@) == selected_ids(items@, match from_id {
            Some(f) => Some(f@),
            None => None,
        }),
{
    let n = items.len();
    let mut start: usize = 0;
    match from_id {
        Some(f) => {
            assert(items@.subrange(0, n as int) =~= items@);
            while start < n && !(items[start].video_id == *f)
                invariant
                    n == items@.len(),
                    start <= n,
                    position_of(items@, f@) == start + position_of(
                        items@.subrange(start as int, n as int),
                        f@,
                    ),
                decreases n - start,
            {
                assert(items@.subrange(start as int, n as int).subrange(1, (n - start) as int)
                    =~= items@.subrange(start + 1, n as int));
                start = start + 1;
            }
            if start < n {
                assert(items@.subrange(start as int, n as int)[0] == items@[start as int]);
            } else {
                assert(items@.subrange(start as int, n as int).len() == 0);
            }
        },
        None => {},
    }
    let mut out: Vec<String> = Vec::new();
    let mut i: usize = start;
    while i < n
        invariant
            n == items@.len(),
            start <= i <= n,
            out@.map_values(|s: String| s@) == kept_ids(items@.subrange(start as int, i as int)),
        decreases n - i,
    {
        assert(items@.subrange(start as int, i + 1).drop_last() =~= items@.subrange(
            start as int,
            i as int,
        ));
        if !is_excluded(&items[i]) {
            let ghost before = out@;
            out.push(items[i].video_id.clone());
            assert(out@.map_values(|s: String| s@) =~= before.map_values(|s: String| s@).push(
                items@[i as int].video_id@,
            ));
        }
        i = i + 1;
    }
    out
}

/// Entry `x` comes before entry `y` in publication order.
pub open spec fn published_before(items: Seq<CatalogEntry>, x: usize, y: usize) -> bool {
    let tx = items[x as int].published_ms;
    let ty = items[y as int].published_ms;
    tx < ty || (tx == ty && x < y)
}

/// The first of at most `retries` attempts, or `None` when none is allowed.
pub fn first_attempt(retries: usize) -> (r: Option<usize>)
    ensures
        r == if retries > 0 {
            Some(0usize)
        } else {
            None
        },
{
    if retries > 0 {
        Some(0)
    } else {
        None
    }
}

/// After attempt `failed` (counted from zero) of at most `retries` has
/// failed: the next attempt, or `None` when none is left.
pub fn next_attempt(failed: usize, retries: usize) -> (r: Option<usize>)
    ensures
        r == if failed + 1 < retries {
            Some((failed + 1) as usize)
        } else {
            None
        },
{
    if failed < retries && failed + 1 < retries {
        Some(failed + 1)
    } else {
        None
    }
}

/// Catalog positions ordered by publication time, earlier first, and by
/// position where times are equal.
pub open spec fn publication_sorted(items: Seq<CatalogEntry>, order: Seq<usize>) -> bool {
    forall|a: int, b: int|
        #![trigger order[a], order[b]]
        0 <= a < b < order.len() ==> published_before(items, order[a], order[b])
}

/// The positions of the entries in order of publication (a stable sort).
pub fn publication_order(items: &Vec<CatalogEntry>) -> (r: Vec<usize>)
    ensures
        r@.len() == items@.len(),
        forall|k: int| 0 <= k < r@.len() ==> r@[k] < items@.len(),
        forall|a: int, b: int| 0 <= a < b < r@.len() ==> r@[a] != r@[b],
        publication_sorted(items@, r@),
{
    let mut out: Vec<usize> = Vec::new();
    let mut i: usize = 0;
    while i < items.len()
        invariant
            i <= items@.len(),
            out@.len() == i,
            forall|k: int| 0 <= k < out@.len() ==> out@[k] < i,
            forall|a: int, b: int| 0 <= a < b < out@.len() ==> out@[a] != out@[b],
            publication_sorted(items@, out@),
        decreases items.len() - i,
    {
        let t = items[i].published_ms;
        let mut p: usize = 0;
        while p < out.len() && items[out[p]].published_ms <= t
            invariant
                p <= out@.len(),
                out@.len() == i,
                i < items@.len(),
                t == items@[i as int].published_ms,
                forall|k: int| 0 <= k < out@.len() ==> out@[k] < i,
                forall|q: int| 0 <= q < p ==> items@[out@[q] as int].published_ms <= t,
            decreases out.len() - p,
        {
            p = p + 1;
        }
        let ghost before = out@;
        out.insert(p, i);
        assert forall|a: int, b: int| 0 <= a < b < out@.len() implies published_before(
            items@,
            out@[a],
            out@[b],
        ) by {
            if b < p {
                assert(out@[a] == before[a] && out@[b] == before[b]);
            } else if b == p {
                assert(out@[a] == before[a]);
            } else if a < p {
                assert(out@[a] == before[a] && out@[b] == before[b - 1]);
                if p < before.len() {
                    assert(items@[before[p as int] as int].published_ms > t);
                    if b - 1 > p {
                        assert(publication_sorted(items@, before));
                    }
                }
            } else if a == p {
                assert(out@[b] == before[b - 1]);
                assert(items@[before[p as int] as int].published_ms > t);
                if b - 1 > p {
                    assert(publication_sorted(items@, before));
                }
            } else {
                assert(out@[a] == before[a - 1] && out@[b] == before[b - 1]);
            }
        }
        i = i + 1;
    }
    out
}

} // verus!
