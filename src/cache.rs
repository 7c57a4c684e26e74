use vstd::prelude::*;

use crate::text::{push_char, push_str};
use crate::timestamp::VideoTimestamp;

verus! {

/// What a batch of stored frames is keyed by: the window of the video it
/// covers (`None`: from the start, or to the end) and its sampling rate in
/// frames per `fps_den` seconds.
#[derive(Debug, Clone, Copy, PartialEq, Eq, Structural)]
pub struct CacheKey {
    pub from: Option<VideoTimestamp>,
    pub to: Option<VideoTimestamp>,
    pub fps_num: u64,
    pub fps_den: u64,
}

/// What to do to obtain the frames of a key.
#[derive(Debug, Clone, Copy, PartialEq, Eq, Structural)]
pub enum CacheAction {
    /// Extract the frames from the video, then list them.
    Extract,
    /// The frames are stored already: list them.
    List,
}

/// The keys whose frames have been stored.
pub struct FrameCache {
    populated: Vec<CacheKey>,
}

/// The action for `key` when the keys in `stored` have their frames.
pub open spec fn action_for(stored: Set<CacheKey>, key: CacheKey) -> CacheAction {
    if stored.contains(key) {
        CacheAction::List
    } else {
        CacheAction::Extract
    }
}

impl FrameCache {
    pub closed spec fn stored(&self) -> Set<CacheKey> {
        self.populated@.to_set()
    }

    /// A cache with nothing stored.
    pub fn new() -> (r: Self)
        ensures
            r.stored() == Set::<CacheKey>::empty(),
    {
        let r = FrameCache { populated: Vec::new() };
        assert(r.populated@.to_set() =~= Set::<CacheKey>::empty());
        r
    }

    /// Whether the frames of `key` are stored.
    pub fn is_populated(&self, key: &CacheKey) -> (r: bool)
        ensures
            r == self.stored().contains(*key),
    {
        let mut i: usize = 0;
        while i < self.populated.len()
            invariant
                i <= self.populated@.len(),
                forall|k: int| 0 <= k < i ==> self.populated@[k] != *key,
            decreases self.populated.len() - i,
        {
            if self.populated[i] == *key {
                assert(self.populated@.contains(*key));
                return true;
            }
            i = i + 1;
        }
        false
    }

    /// What to do to obtain the frames of `key`; nothing changes.
    pub fn request(&self, key: &CacheKey) -> (r: CacheAction)
        ensures
            r == action_for(self.stored(), *key),
    {
        if self.is_populated(key) {
            CacheAction::List
        } else {
            CacheAction::Extract
        }
    }

    /// Records that the frames of `key` have been stored.
    pub fn mark_populated(&mut self, key: CacheKey)
        ensures
            final(self).stored() == old(self).stored().insert(key),
    {
        if !self.is_populated(&key) {
            self.populated.push(key);
        }
        proof {
            let before = old(self).populated@;
            if !before.to_set().contains(key) {
                assert(self.populated@ == before.push(key));
                assert(before.push(key).to_set() =~= before.to_set().insert(key)) by {
                    assert forall|x: CacheKey| before.push(key).contains(x) <==> (
                    before.contains(x) || x == key) by {
                        if before.push(key).contains(x) {
                            let i = choose|i: int| 0 <= i < before.len() + 1 && before.push(key)[i] == x;
                            if i < before.len() {
                                assert(before[i] == x);
                            }
                        }
                        if before.contains(x) {
                            let i = choose|i: int| 0 <= i < before.len() && before[i] == x;
                            assert(before.push(key)[i] == x);
                        }
                        if x == key {
                            assert(before.push(key)[before.len() as int] == x);
                        }
                    }
                }
            } else {
                assert(before.to_set().insert(key) =~= before.to_set());
            }
        }
    }
}

/// Once the frames of a key are stored, asking for that key again lists them
/// and extracts nothing, whatever else is stored.
pub proof fn lemma_request_after_store(stored: Set<CacheKey>, key: CacheKey, other: CacheKey)
    ensures
        action_for(stored.insert(key), key) == CacheAction::List,
        action_for(stored.insert(key).insert(other), key) == CacheAction::List,
{
}

/// The actions of a run that asks for `keys` in turn and stores the frames of
/// each key it extracts, starting with the keys in `stored` stored.
pub open spec fn run_actions(stored: Set<CacheKey>, keys: Seq<CacheKey>) -> Seq<CacheAction>
    decreases keys.len(),
{
    if keys.len() == 0 {
        Seq::empty()
    } else {
        seq![action_for(stored, keys[0])] + run_actions(
            stored.insert(keys[0]),
            keys.subrange(1, keys.len() as int),
        )
    }
}

/// The keys stored after such a run.
pub open spec fn after_run(stored: Set<CacheKey>, keys: Seq<CacheKey>) -> Set<CacheKey>
    decreases keys.len(),
{
    if keys.len() == 0 {
        stored
    } else {
        after_run(stored.insert(keys[0]), keys.subrange(1, keys.len() as int))
    }
}

proof fn lemma_run_len(stored: Set<CacheKey>, keys: Seq<CacheKey>)
    ensures
        run_actions(stored, keys).len() == keys.len(),
    decreases keys.len(),
{
    if keys.len() > 0 {
        lemma_run_len(stored.insert(keys[0]), keys.subrange(1, keys.len() as int));
    }
}

proof fn lemma_after_run_holds(stored: Set<CacheKey>, keys: Seq<CacheKey>)
    ensures
        stored.subset_of(after_run(stored, keys)),
        forall|i: int| 0 <= i < keys.len() ==> after_run(stored, keys).contains(#[trigger] keys[i]),
    decreases keys.len(),
{
    if keys.len() > 0 {
        let rest = keys.subrange(1, keys.len() as int);
        lemma_after_run_holds(stored.insert(keys[0]), rest);
        assert forall|i: int| 0 <= i < keys.len() implies after_run(stored, keys).contains(
            #[trigger] keys[i],
        ) by {
            if i > 0 {
                assert(keys[i] == rest[i - 1]);
            }
        }
    }
}

/// Where `key` is stored, every request for it in a run lists.
proof fn lemma_stored_key_lists(stored: Set<CacheKey>, keys: Seq<CacheKey>, key: CacheKey)
    requires
        stored.contains(key),
    ensures
        forall|j: int|
            0 <= j < keys.len() && keys[j] == key ==> #[trigger] run_actions(stored, keys)[j]
                == CacheAction::List,
    decreases keys.len(),
{
    if keys.len() > 0 {
        let rest = keys.subrange(1, keys.len() as int);
        lemma_stored_key_lists(stored.insert(keys[0]), rest, key);
        lemma_run_len(stored.insert(keys[0]), rest);
        assert forall|j: int| 0 <= j < keys.len() && keys[j] == key implies #[trigger] run_actions(
            stored,
            keys,
        )[j] == CacheAction::List by {
            if j > 0 {
                assert(keys[j] == rest[j - 1]);
                assert(run_actions(stored, keys)[j] == run_actions(stored.insert(keys[0]), rest)[j
                    - 1]);
            }
        }
    }
}

/// A run extracts the frames of each key at most once: a key asked for again
/// later in the run is listed.
pub proof fn lemma_run_extracts_once(stored: Set<CacheKey>, keys: Seq<CacheKey>, i: int, j: int)
    requires
        0 <= i < j < keys.len(),
        keys[i] == keys[j],
    ensures
        run_actions(stored, keys)[j] == CacheAction::List,
    decreases keys.len(),
{
    let rest = keys.subrange(1, keys.len() as int);
    lemma_run_len(stored.insert(keys[0]), rest);
    assert(run_actions(stored, keys)[j] == run_actions(stored.insert(keys[0]), rest)[j - 1]);
    assert(keys[j] == rest[j - 1]);
    if i == 0 {
        lemma_stored_key_lists(stored.insert(keys[0]), rest, keys[0]);
    } else {
        assert(keys[i] == rest[i - 1]);
        lemma_run_extracts_once(stored.insert(keys[0]), rest, i - 1, j - 1);
    }
}

/// Running again over the same keys, after a run stored their frames, extracts
/// nothing: every key is listed from what is stored.
pub proof fn lemma_second_run_extracts_nothing(stored: Set<CacheKey>, keys: Seq<CacheKey>)
    ensures
        run_actions(after_run(stored, keys), keys).len() == keys.len(),
        forall|i: int|
            0 <= i < keys.len() ==> #[trigger] run_actions(after_run(stored, keys), keys)[i]
                == CacheAction::List,
{
    let t = after_run(stored, keys);
    lemma_run_len(t, keys);
    lemma_after_run_holds(stored, keys);
    assert forall|i: int| 0 <= i < keys.len() implies #[trigger] run_actions(t, keys)[i]
        == CacheAction::List by {
        lemma_stored_key_lists(t, keys, keys[i]);
    }
}

impl FrameCache {
    /// Plans a run over `keys`: the action for each key in turn, taking each
    /// key that is extracted as stored from then on.
    pub fn plan_run(&mut self, keys: &Vec<CacheKey>) -> (r: Vec<CacheAction>)
        ensures
            r@ == run_actions(old(self).stored(), keys@),
            final(self).stored() == after_run(old(self).stored(), keys@),
    {
        let ghost s0 = self.stored();
        let mut out: Vec<CacheAction> = Vec::new();
        let mut i: usize = 0;
        let n = keys.len();
        assert(keys@.subrange(0, n as int) =~= keys@);
        while i < n
            invariant
                n == keys@.len(),
                i <= n,
                out@ + run_actions(self.stored(), keys@.subrange(i as int, n as int))
                    == run_actions(s0, keys@),
                after_run(self.stored(), keys@.subrange(i as int, n as int)) == after_run(
                    s0,
                    keys@,
                ),
            decreases n - i,
        {
            let ghost rest = keys@.subrange(i as int, n as int);
            assert(rest.subrange(1, rest.len() as int) =~= keys@.subrange(i + 1, n as int));
            assert(rest[0] == keys@[i as int]);
            let a = self.request(&keys[i]);
            self.mark_populated(keys[i]);
            let ghost before = out@;
            out.push(a);
            assert(out@ =~= before.push(a));
            assert(run_actions(s0, keys@) == before + (seq![a] + run_actions(
                self.stored(),
                keys@.subrange(i + 1, n as int),
            )));
            assert(out@ + run_actions(self.stored(), keys@.subrange(i + 1, n as int)) =~= before
                + (seq![a] + run_actions(self.stored(), keys@.subrange(i + 1, n as int))));
            i = i + 1;
        }
        assert(keys@.subrange(n as int, n as int) =~= Seq::<CacheKey>::empty());
        assert(out@ =~= out@ + Seq::<CacheAction>::empty());
        out
    }
}

/// The name of the directory that holds the frames of the window from `from`
/// to `to`: both timestamps as `HH:MM:SS.mmm`, joined by `-`.
pub fn window_dir_name(from: &VideoTimestamp, to: &VideoTimestamp) -> (r: String)
    ensures
        r@ == from.text() + seq!['-'] + to.text(),
{
    let mut s = from.as_ffmpeg_arg();
    push_char(&mut s, '-');
    push_str(&mut s, to.as_ffmpeg_arg().as_str());
    s
}

} // verus!
