use vstd::prelude::*;
use vstd::string::StrSliceExecFns;

use crate::timestamp::VideoTimestamp;

verus! {

broadcast use vstd::seq_lib::group_to_multiset_ensures;

/// A frame taken from a video: its 1-based position in its batch, where its
/// image is stored, and when in the video it was taken.
pub struct Thumbnail {
    pub seq: u64,
    pub path: String,
    pub timestamp: VideoTimestamp,
}

/// Why a batch of stored frames could not be listed.
#[derive(Debug, Clone, Copy, PartialEq, Eq, Structural)]
pub enum FrameError {
    /// An entry is named as a frame, but its name holds no usable sequence number.
    CacheCorrupt,
}

pub open spec fn is_digit(c: char) -> bool {
    48 <= c as u32 <= 57
}

/// The value of a string of decimal digits.
pub open spec fn digits_value(s: Seq<char>) -> int
    decreases s.len(),
{
    if s.len() == 0 {
        0
    } else {
        digits_value(s.drop_last()) * 10 + (s.last() as u32 - 48)
    }
}

/// What `u64::from_str` accepts: an optional `+`, then one or more decimal
/// digits whose value fits in 64 bits.
pub open spec fn u64_text(s: Seq<char>) -> Option<u64> {
    u64_digits(without_plus(s))
}

pub open spec fn without_plus(s: Seq<char>) -> Seq<char> {
    if s.len() > 0 && s[0] == '+' {
        s.subrange(1, s.len() as int)
    } else {
        s
    }
}

/// One or more decimal digits whose value fits in 64 bits.
pub open spec fn u64_digits(d: Seq<char>) -> Option<u64> {
    if d.len() > 0 && (forall|i: int| 0 <= i < d.len() ==> #[trigger] is_digit(d[i]))
        && digits_value(d) <= u64::MAX {
        Some(digits_value(d) as u64)
    } else {
        None
    }
}

pub open spec fn frame_prefix() -> Seq<char> {
    seq!['t', 'h', 'u', 'm', 'b']
}

pub open spec fn frame_suffix() -> Seq<char> {
    seq!['.', 'j', 'p', 'g']
}

/// A stored frame is named `thumb<sequence number>.jpg`.
pub open spec fn is_frame_name(n: Seq<char>) -> bool {
    n.len() >= 9 && n.subrange(0, 5) == frame_prefix() && n.subrange(n.len() - 4, n.len() as int)
        == frame_suffix()
}

/// The text between `thumb` and `.jpg`.
pub open spec fn frame_number_text(n: Seq<char>) -> Seq<char> {
    n.subrange(5, n.len() - 4)
}

/// Milliseconds from the start of the batch to frame `seq` (1-based), taken at
/// `num / den` frames per second: the middle of its sampling interval,
/// `(seq - 0.5) * den / num` seconds, rounded to the nearest millisecond.
pub open spec fn frame_offset_ms(seq: int, num: int, den: int) -> int {
    ((2 * seq - 1) * 1000 * den + num) / (2 * num)
}

/// The frame can be placed: it has a positive sequence number, and its
/// timestamp can be computed in 128 bits and held in a timestamp.
pub open spec fn frame_fits(seq: int, base_ms: int, num: int, den: int) -> bool {
    &&& seq >= 1
    &&& (2 * seq - 1) * 1000 * den + num <= u128::MAX
    &&& (base_ms + frame_offset_ms(seq, num, den)) / 1000 <= u64::MAX
}

/// Reads `s` as `u64::from_str` does.
fn parse_digits(s: &str) -> (r: Option<u64>)
    ensures
        r == u64_text(s@),
{
    let n = s.unicode_len();
    let mut i: usize = 0;
    if n > 0 && s.get_char(0) == '+' {
        i = 1;
    }
    let ghost d = s@.subrange(i as int, n as int);
    assert(d =~= without_plus(s@));
    if i == n {
        return None;
    }
    let start = i;
    let mut value: u64 = 0;
    while i < n
        invariant
            n == s@.len(),
            start <= i <= n,
            d == s@.subrange(start as int, n as int),
            d == without_plus(s@),
            forall|k: int| 0 <= k < i - start ==> #[trigger] is_digit(d[k]),
            value == digits_value(d.subrange(0, i - start)),
        decreases n - i,
    {
        let c = s.get_char(i);
        let code = c as u32;
        if code < 48 || code > 57 {
            assert(!is_digit(d[i - start]));
            assert(u64_digits(d) is None);
            return None;
        }
        let v = (code - 48) as u64;
        assert(d.subrange(0, i + 1 - start).drop_last() =~= d.subrange(0, i - start));
        if value > (u64::MAX - v) / 10 {
            proof {
                lemma_digits_value_grows(d, (i + 1 - start) as int);
                assert(u64_digits(d) is None);
            }
            return None;
        }
        value = value * 10 + v;
        i = i + 1;
    }
    assert(d.subrange(0, n - start) =~= d);
    Some(value)
}

proof fn lemma_digits_value_nonneg(s: Seq<char>)
    requires
        forall|k: int| 0 <= k < s.len() ==> #[trigger] is_digit(s[k]),
    ensures
        digits_value(s) >= 0,
    decreases s.len(),
{
    if s.len() > 0 {
        assert(forall|k: int| 0 <= k < s.len() - 1 ==> s.drop_last()[k] == s[k]);
        lemma_digits_value_nonneg(s.drop_last());
        assert(is_digit(s[s.len() - 1]));
    }
}

/// A digit string with a prefix that is too large is itself too large.
proof fn lemma_digits_value_grows(d: Seq<char>, m: int)
    requires
        0 < m <= d.len(),
        forall|k: int| 0 <= k < m ==> #[trigger] is_digit(d[k]),
        digits_value(d.subrange(0, m)) > u64::MAX,
    ensures
        (forall|k: int| 0 <= k < d.len() ==> #[trigger] is_digit(d[k])) ==> digits_value(d)
            > u64::MAX,
    decreases d.len() - m,
{
    if m < d.len() {
        if is_digit(d[m]) {
            assert(d.subrange(0, m + 1).drop_last() =~= d.subrange(0, m));
            lemma_digits_value_nonneg(d.subrange(0, m));
            lemma_digits_value_grows(d, m + 1);
        } else {
            assert(!is_digit(d[m]));
        }
    } else {
        assert(d.subrange(0, m) =~= d);
    }
}

/// What listing `entries` (file name, path) yields for a batch that starts at
/// `base` milliseconds and was sampled at `num / den` frames per second: for
/// each entry named as a frame, in the order given, its sequence number, path
/// and timestamp in milliseconds; nothing if one such entry cannot be placed.
pub open spec fn listed_frames(entries: Seq<(String, String)>, base: int, num: int, den: int) -> Option<
    Seq<(int, Seq<char>, int)>,
>
    decreases entries.len(),
{
    if entries.len() == 0 {
        Some(Seq::empty())
    } else {
        let prev = listed_frames(entries.drop_last(), base, num, den);
        let name = entries.last().0@;
        let path = entries.last().1@;
        if !is_frame_name(name) {
            prev
        } else {
            let parsed = u64_text(frame_number_text(name));
            if parsed is Some && frame_fits(parsed->0 as int, base, num, den) && prev is Some {
                let seq = parsed->0 as int;
                Some(prev->0.push((seq, path, base + frame_offset_ms(seq, num, den))))
            } else {
                None
            }
        }
    }
}

/// The view of a listed frame.
pub open spec fn thumbnail_view(t: Thumbnail) -> (int, Seq<char>, int) {
    (t.seq as int, t.path@, t.timestamp.total_ms())
}

fn is_frame_name_exec(name: &str) -> (r: bool)
    ensures
        r == is_frame_name(name@),
{
    let n = name.unicode_len();
    if n < 9 {
        return false;
    }
    let ok = name.get_char(0) == 't' && name.get_char(1) == 'h' && name.get_char(2) == 'u'
        && name.get_char(3) == 'm' && name.get_char(4) == 'b' && name.get_char(n - 4) == '.'
        && name.get_char(n - 3) == 'j' && name.get_char(n - 2) == 'p' && name.get_char(n - 1)
        == 'g';
    let ghost s = name@;
    assert(ok == is_frame_name(s)) by {
        let a = s.subrange(0, 5);
        let b = s.subrange(n - 4, n as int);
        if ok {
            assert(a =~= frame_prefix());
            assert(b =~= frame_suffix());
        }
        if a == frame_prefix() {
            assert(a[0] == 't' && a[1] == 'h' && a[2] == 'u' && a[3] == 'm' && a[4] == 'b');
        }
        if b == frame_suffix() {
            assert(b[0] == '.' && b[1] == 'j' && b[2] == 'p' && b[3] == 'g');
        }
    }
    ok
}

/// The timestamp of frame `seq` of a batch that starts at `base` and was
/// sampled at `num / den` frames per second; `None` where it cannot be placed.
pub fn frame_timestamp(base: VideoTimestamp, seq: u64, num: u64, den: u64) -> (r: Option<
    VideoTimestamp,
>)
    requires
        base.wf(),
        num >= 1,
    ensures
        r is Some <==> frame_fits(seq as int, base.total_ms(), num as int, den as int),
        r matches Some(t) ==> t.wf() && t.total_ms() == base.total_ms() + frame_offset_ms(
            seq as int,
            num as int,
            den as int,
        ),
{
    if seq == 0 {
        return None;
    }
    let a: u128 = 2 * (seq as u128) - 1;
    let b: u128 = a * 1000;
    if den != 0 && b > u128::MAX / (den as u128) {
        proof {
            assert(b * den > u128::MAX) by (nonlinear_arith)
                requires
                    den > 0,
                    b > (u128::MAX as int) / (den as int),
            ;
        }
        return None;
    }
    proof {
        assert(b * den <= u128::MAX) by (nonlinear_arith)
            requires
                den == 0 || b <= (u128::MAX as int) / (den as int),
        ;
    }
    let c: u128 = b * (den as u128);
    if c > u128::MAX - (num as u128) {
        return None;
    }
    let off: u128 = (c + num as u128) / (2 * num as u128);
    let base_ms: u128 = base.seconds as u128 * 1000 + base.milliseconds as u128;
    if off > u128::MAX - base_ms {
        return None;
    }
    let total: u128 = base_ms + off;
    if total / 1000 > u64::MAX as u128 {
        return None;
    }
    let t = VideoTimestamp { seconds: (total / 1000) as u64, milliseconds: (total % 1000) as u64 };
    Some(t)
}

proof fn lemma_listed_none_stays(
    entries: Seq<(String, String)>,
    k: int,
    base: int,
    num: int,
    den: int,
)
    requires
        0 <= k <= entries.len(),
        listed_frames(entries.subrange(0, k), base, num, den) is None,
    ensures
        listed_frames(entries, base, num, den) is None,
    decreases entries.len() - k,
{
    if k < entries.len() {
        assert(entries.subrange(0, k + 1).drop_last() =~= entries.subrange(0, k));
        lemma_listed_none_stays(entries, k + 1, base, num, den);
    } else {
        assert(entries.subrange(0, k) =~= entries);
    }
}

/// Frames in ascending order of sequence number.
pub open spec fn sorted_by_sequence(v: Seq<Thumbnail>) -> bool {
    forall|i: int, j: int| 0 <= i < j < v.len() ==> v[i].seq <= v[j].seq
}

/// Lists the stored frames among `entries` (file name, path) of a batch that
/// starts at `from` (or at the start of the video) and was sampled at
/// `fps.0 / fps.1` frames per second, in ascending order of sequence number
/// (entries with equal numbers in the order given). Entries not named as
/// frames are skipped.
pub fn collect_thumbnails(
    entries: &Vec<(String, String)>,
    from: Option<VideoTimestamp>,
    fps: (u64, u64),
) -> (r: Result<Vec<Thumbnail>, FrameError>)
    requires
        from matches Some(f) ==> f.wf(),
        fps.0 >= 1,
    ensures
        ({
            let base = match from {
                Some(f) => f.total_ms(),
                None => 0,
            };
            let expected = listed_frames(entries@, base, fps.0 as int, fps.1 as int);
            match r {
                Ok(v) => expected is Some && expected->0.to_multiset() == v@.map_values(
                    |t: Thumbnail| thumbnail_view(t),
                ).to_multiset() && sorted_by_sequence(v@) && forall|i: int|
                    0 <= i < v@.len() ==> (#[trigger] v@[i]).timestamp.wf(),
                Err(e) => expected is None && e == FrameError::CacheCorrupt,
            }
        }),
{
    let base = match from {
        Some(f) => f,
        None => VideoTimestamp::zero(),
    };
    let ghost base_ms = base.total_ms();
    let mut out: Vec<Thumbnail> = Vec::new();
    let mut i: usize = 0;
    while i < entries.len()
        invariant
            i <= entries@.len(),
            base.wf(),
            base_ms == base.total_ms(),
            base_ms == match from {
                Some(f) => f.total_ms(),
                None => 0,
            },
            fps.0 >= 1,
            listed_frames(entries@.subrange(0, i as int), base_ms, fps.0 as int, fps.1 as int)
                is Some,
            listed_frames(entries@.subrange(0, i as int), base_ms, fps.0 as int, fps.1 as int)->0.to_multiset()
                == out@.map_values(|t: Thumbnail| thumbnail_view(t)).to_multiset(),
            sorted_by_sequence(out@),
            forall|k: int| 0 <= k < out@.len() ==> (#[trigger] out@[k]).timestamp.wf(),
        decreases entries.len() - i,
    {
        let ghost prefix = entries@.subrange(0, i + 1);
        assert(prefix.drop_last() =~= entries@.subrange(0, i as int));
        let name = entries[i].0.as_str();
        if is_frame_name_exec(name) {
            let n = name.unicode_len();
            let digits = name.substring_char(5, n - 4);
            let parsed = parse_digits(digits);
            let t = match parsed {
                Some(seq) => frame_timestamp(base, seq, fps.0, fps.1),
                None => None,
            };
            match t {
                Some(ts) => {
                    let seq = parsed.unwrap();
                    let mut p: usize = 0;
                    while p < out.len() && out[p].seq <= seq
                        invariant
                            p <= out@.len(),
                            forall|q: int| 0 <= q < p ==> out@[q].seq <= seq,
                        decreases out.len() - p,
                    {
                        p = p + 1;
                    }
                    let ghost before = out@;
                    let th = Thumbnail { seq, path: entries[i].1.clone(), timestamp: ts };
                    let ghost tv = thumbnail_view(th);
                    out.insert(p, th);
                    assert(out@.map_values(|t: Thumbnail| thumbnail_view(t)) =~= before.map_values(
                        |t: Thumbnail| thumbnail_view(t),
                    ).insert(p as int, tv));
                },
                None => {
                    proof {
                        lemma_listed_none_stays(entries@, (i + 1) as int, base_ms, fps.0 as int, fps.1 as int);
                    }
                    return Err(FrameError::CacheCorrupt);
                },
            }
        }
        i = i + 1;
    }
    assert(entries@.subrange(0, entries@.len() as int) =~= entries@);
    Ok(out)
}

proof fn lemma_div_add_bounds(a: int, c: int, m: int)
    requires
        a >= 0,
        c >= 0,
        m > 0,
    ensures
        c / m <= (a + c) / m - a / m <= c / m + 1,
{
    vstd::arithmetic::div_mod::lemma_fundamental_div_mod(a, m);
    vstd::arithmetic::div_mod::lemma_fundamental_div_mod(c, m);
    vstd::arithmetic::div_mod::lemma_fundamental_div_mod(a + c, m);
    vstd::arithmetic::div_mod::lemma_mod_pos_bound(a, m);
    vstd::arithmetic::div_mod::lemma_mod_pos_bound(c, m);
    vstd::arithmetic::div_mod::lemma_mod_pos_bound(a + c, m);
    let x = (a + c) / m - a / m - c / m;
    assert(m * x == a % m + c % m - (a + c) % m) by (nonlinear_arith)
        requires
            a == m * (a / m) + a % m,
            c == m * (c / m) + c % m,
            a + c == m * ((a + c) / m) + (a + c) % m,
            x == (a + c) / m - a / m - c / m,
    ;
    assert(0 <= x <= 1) by (nonlinear_arith)
        requires
            m > 0,
            -m < m * x < 2 * m,
    ;
}

/// Frames of a batch sampled at `num / den` frames per second follow each
/// other by `1000 * den / num` milliseconds, rounded down, or one more.
pub proof fn lemma_frame_step(seq: int, num: int, den: int)
    requires
        seq >= 1,
        num >= 1,
        den >= 0,
    ensures
        (1000 * den) / num <= frame_offset_ms(seq + 1, num, den) - frame_offset_ms(seq, num, den)
            <= (1000 * den) / num + 1,
{
    let a = (2 * seq - 1) * 1000 * den + num;
    assert(a >= 0) by (nonlinear_arith)
        requires
            seq >= 1,
            den >= 0,
            num >= 1,
            a == (2 * seq - 1) * 1000 * den + num,
    ;
    assert((2 * (seq + 1) - 1) * 1000 * den + num == a + 2000 * den) by (nonlinear_arith)
        requires
            a == (2 * seq - 1) * 1000 * den + num,
    ;
    lemma_div_add_bounds(a, 2000 * den, 2 * num);
    assert((2000 * den) / (2 * num) == (1000 * den) / num) by {
        vstd::arithmetic::div_mod::lemma_div_multiples_vanish_quotient(2, 1000 * den, num);
        assert(2 * (1000 * den) == 2000 * den);
    }
}

} // verus!
