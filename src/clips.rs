use vstd::prelude::*;

use crate::text::{decimal, padded, push_char, push_decimal, push_padded, push_str};
use crate::search::{assemble, sorted_ranges, ClipsInfo};
use crate::timestamp::VideoTimestamp;

verus! {

/// The ranges to cut from a video, in ascending order, or `None` where there
/// is nothing to cut: no ranges, or a cut that exists already and is to be kept.
pub fn clip_plan(info: &ClipsInfo, skip_existing: bool, output_exists: bool) -> (r: Option<
    Vec<(VideoTimestamp, VideoTimestamp)>,
>)
    ensures
        r is None <==> (info.ranges@.len() == 0 || (skip_existing && output_exists)),
        r matches Some(v) ==> sorted_ranges(v@) && v@.to_multiset() == info.ranges@.to_multiset(),
{
    if info.ranges.len() == 0 || (skip_existing && output_exists) {
        None
    } else {
        Some(assemble(&info.ranges))
    }
}

/// A timestamp as seconds with three decimals, `S.mmm`.
pub open spec fn seconds_text(t: VideoTimestamp) -> Seq<char> {
    decimal(t.seconds as nat) + seq!['.'] + padded(t.milliseconds as nat, 3)
}

/// The selection term `between(t,S.mmm,S.mmm)` of one range.
pub open spec fn between_text(r: (VideoTimestamp, VideoTimestamp)) -> Seq<char> {
    "between(t,"@ + seconds_text(r.0) + seq![','] + seconds_text(r.1) + seq![')']
}

/// The selection terms of all ranges, joined by `+`.
pub open spec fn select_terms(s: Seq<(VideoTimestamp, VideoTimestamp)>) -> Seq<char>
    decreases s.len(),
{
    if s.len() == 0 {
        Seq::empty()
    } else if s.len() == 1 {
        between_text(s[0])
    } else {
        select_terms(s.drop_last()) + seq!['+'] + between_text(s.last())
    }
}

fn push_seconds(s: &mut String, t: &VideoTimestamp)
    ensures
        final(s)@ == old(s)@ + seconds_text(*t),
{
    push_decimal(s, t.seconds);
    push_char(s, '.');
    push_padded(s, t.milliseconds, 3);
    assert(s@ =~= old(s)@ + seconds_text(*t));
}

/// The selection terms of `ranges`, in the order given.
pub fn select_expression(ranges: &Vec<(VideoTimestamp, VideoTimestamp)>) -> (r: String)
    ensures
        r@ == select_terms(ranges@),
{
    let mut s = String::new();
    let mut i: usize = 0;
    while i < ranges.len()
        invariant
            i <= ranges@.len(),
            s@ == select_terms(ranges@.subrange(0, i as int)),
        decreases ranges.len() - i,
    {
        let ghost before = s@;
        assert(ranges@.subrange(0, i + 1).drop_last() =~= ranges@.subrange(0, i as int));
        if i > 0 {
            push_char(&mut s, '+');
        }
        push_str(&mut s, "between(t,");
        push_seconds(&mut s, &ranges[i].0);
        push_char(&mut s, ',');
        push_seconds(&mut s, &ranges[i].1);
        push_char(&mut s, ')');
        if i > 0 {
            assert(s@ =~= before + seq!['+'] + between_text(ranges@[i as int]));
        } else {
            assert(s@ =~= between_text(ranges@[0]));
        }
        i = i + 1;
    }
    assert(ranges@.subrange(0, ranges@.len() as int) =~= ranges@);
    s
}

/// The video filter that keeps only `ranges`, in the order given.
pub fn video_select_filter(ranges: &Vec<(VideoTimestamp, VideoTimestamp)>) -> (r: String)
    ensures
        r@ == "select='"@ + select_terms(ranges@) + "',setpts=N/FRAME_RATE/TB"@,
{
    let mut s = String::new();
    push_str(&mut s, "select='");
    push_str(&mut s, select_expression(ranges).as_str());
    push_str(&mut s, "',setpts=N/FRAME_RATE/TB");
    assert(s@ =~= "select='"@ + select_terms(ranges@) + "',setpts=N/FRAME_RATE/TB"@);
    s
}

/// The audio filter that keeps only `ranges`, in the order given.
pub fn audio_select_filter(ranges: &Vec<(VideoTimestamp, VideoTimestamp)>) -> (r: String)
    ensures
        r@ == "aselect='"@ + select_terms(ranges@) + "',asetpts=N/SR/TB"@,
{
    let mut s = String::new();
    push_str(&mut s, "aselect='");
    push_str(&mut s, select_expression(ranges).as_str());
    push_str(&mut s, "',asetpts=N/SR/TB");
    assert(s@ =~= "aselect='"@ + select_terms(ranges@) + "',asetpts=N/SR/TB"@);
    s
}

/// The inputs of the concatenation graph: `[i:v:0][i:a:0]` for each `i < n`.
pub open spec fn concat_inputs(n: nat) -> Seq<char>
    decreases n,
{
    if n == 0 {
        Seq::empty()
    } else {
        let i = (n - 1) as nat;
        concat_inputs(i) + seq!['['] + decimal(i) + ":v:0]["@ + decimal(i) + ":a:0]"@
    }
}

/// The filter graph that concatenates `n` inputs, video and audio, and burns
/// in the subtitles of `subtitle` where one is given.
pub open spec fn concat_graph(n: nat, subtitle: Option<Seq<char>>) -> Seq<char> {
    concat_inputs(n) + "concat=n="@ + decimal(n) + ":v=1:a=1[outv][outa]"@ + match subtitle {
        Some(path) => ";[outv]subtitles="@ + path + ":force_style='Alignment=1,OutlineColour=&H100000000,BorderStyle=3,Outline=1,Shadow=0,Fontsize=18'[outv]"@,
        None => Seq::empty(),
    }
}

/// The filter graph that concatenates `n` inputs (see `concat_graph`).
pub fn concat_filter(n: u64, subtitle: Option<&str>) -> (r: String)
    ensures
        r@ == concat_graph(n as nat, match subtitle {
            Some(p) => Some(p@),
            None => None,
        }),
{
    let mut s = String::new();
    let mut i: u64 = 0;
    while i < n
        invariant
            i <= n,
            s@ == concat_inputs(i as nat),
        decreases n - i,
    {
        push_char(&mut s, '[');
        push_decimal(&mut s, i);
        push_str(&mut s, ":v:0][");
        push_decimal(&mut s, i);
        push_str(&mut s, ":a:0]");
        assert(s@ =~= concat_inputs((i + 1) as nat));
        i = i + 1;
    }
    push_str(&mut s, "concat=n=");
    push_decimal(&mut s, n);
    push_str(&mut s, ":v=1:a=1[outv][outa]");
    match subtitle {
        Some(path) => {
            push_str(&mut s, ";[outv]subtitles=");
            push_str(&mut s, path);
            push_str(&mut s, ":force_style='Alignment=1,OutlineColour=&H100000000,BorderStyle=3,Outline=1,Shadow=0,Fontsize=18'[outv]");
        },
        None => {},
    }
    assert(s@ =~= concat_graph(n as nat, match subtitle {
        Some(p) => Some(p@),
        None => None,
    }));
    s
}

/// Time taken by the first `i` clips, in milliseconds.
pub open spec fn elapsed_ms(clips: Seq<(String, VideoTimestamp)>, i: int) -> int
    decreases i,
{
    if i <= 0 {
        0
    } else {
        elapsed_ms(clips, i - 1) + clips[i - 1].1.total_ms()
    }
}

/// The normalized timestamp `ms` milliseconds from the start.
pub open spec fn timestamp_at(ms: int) -> VideoTimestamp {
    VideoTimestamp { seconds: (ms / 1000) as u64, milliseconds: (ms % 1000) as u64 }
}

/// One subtitle: its number, its time span, its text, and a blank line.
pub open spec fn subtitle_entry(k: nat, start: VideoTimestamp, end: VideoTimestamp, title: Seq<
    char,
>) -> Seq<char> {
    decimal(k) + seq!['\n'] + start.text() + " --> "@ + end.text() + seq!['\n'] + title + seq![
        '\n',
        '\n',
    ]
}

/// The subtitles of the first `n` clips, played one after another: the
/// subtitle `k` shows the title of clip `k` while that clip plays.
pub open spec fn subtitle_track(clips: Seq<(String, VideoTimestamp)>, n: int) -> Seq<char>
    decreases n,
{
    if n <= 0 {
        Seq::empty()
    } else {
        subtitle_track(clips, n - 1) + subtitle_entry(
            n as nat,
            timestamp_at(elapsed_ms(clips, n - 1)),
            timestamp_at(elapsed_ms(clips, n)),
            clips[n - 1].0@,
        )
    }
}

proof fn lemma_elapsed_monotone(clips: Seq<(String, VideoTimestamp)>, i: int, n: int)
    requires
        0 <= i <= n,
    ensures
        elapsed_ms(clips, i) <= elapsed_ms(clips, n),
    decreases n - i,
{
    if i < n {
        lemma_elapsed_monotone(clips, i, n - 1);
    }
}

proof fn lemma_normalized_is_timestamp_at(t: VideoTimestamp)
    requires
        t.wf(),
    ensures
        t == timestamp_at(t.total_ms()),
{
    assert(t.total_ms() / 1000 == t.seconds && t.total_ms() % 1000 == t.milliseconds) by {
        vstd::arithmetic::div_mod::lemma_fundamental_div_mod_converse(
            t.total_ms(),
            1000,
            t.seconds as int,
            t.milliseconds as int,
        );
    }
}

proof fn lemma_sum_fits(a: VideoTimestamp, b: VideoTimestamp)
    requires
        a.wf(),
        b.wf(),
        (a.total_ms() + b.total_ms()) / 1000 <= u64::MAX,
    ensures
        a.seconds + b.seconds + (a.milliseconds + b.milliseconds) / 1000 <= u64::MAX,
{
    let c = (a.milliseconds + b.milliseconds) / 1000;
    assert((a.total_ms() + b.total_ms()) / 1000 == a.seconds + b.seconds + c) by {
        vstd::arithmetic::div_mod::lemma_fundamental_div_mod_converse(
            a.total_ms() + b.total_ms(),
            1000,
            a.seconds + b.seconds + c,
            (a.milliseconds + b.milliseconds) % 1000,
        );
    }
}

fn push_subtitle(s: &mut String, k: u64, start: &VideoTimestamp, end: &VideoTimestamp, title: &str)
    ensures
        final(s)@ == old(s)@ + subtitle_entry(k as nat, *start, *end, title@),
{
    push_decimal(s, k);
    push_char(s, '\n');
    push_str(s, start.as_ffmpeg_arg().as_str());
    push_str(s, " --> ");
    push_str(s, end.as_ffmpeg_arg().as_str());
    push_char(s, '\n');
    push_str(s, title);
    push_char(s, '\n');
    push_char(s, '\n');
    assert(s@ =~= old(s)@ + subtitle_entry(k as nat, *start, *end, title@));
}

/// The subtitle track for `clips` (title, duration) concatenated in order.
pub fn subtitle_text(clips: &Vec<(String, VideoTimestamp)>) -> (r: String)
    requires
        forall|i: int| 0 <= i < clips@.len() ==> (#[trigger] clips@[i]).1.wf(),
        elapsed_ms(clips@, clips@.len() as int) / 1000 <= u64::MAX,
    ensures
        r@ == subtitle_track(clips@, clips@.len() as int),
{
    let mut s = String::new();
    let mut start = VideoTimestamp::zero();
    let mut i: usize = 0;
    let n = clips.len();
    while i < n
        invariant
            n == clips@.len(),
            i <= n,
            forall|k: int| 0 <= k < clips@.len() ==> (#[trigger] clips@[k]).1.wf(),
            elapsed_ms(clips@, n as int) / 1000 <= u64::MAX,
            start.wf(),
            start.total_ms() == elapsed_ms(clips@, i as int),
            s@ == subtitle_track(clips@, i as int),
        decreases n - i,
    {
        proof {
            lemma_elapsed_monotone(clips@, i + 1, n as int);
            lemma_normalized_is_timestamp_at(start);
        }
        let d = clips[i].1;
        proof {
            lemma_sum_fits(start, d);
        }
        let end = start.plus(d);
        proof {
            lemma_normalized_is_timestamp_at(end);
        }
        push_subtitle(&mut s, (i + 1) as u64, &start, &end, clips[i].0.as_str());
        start = end;
        i = i + 1;
    }
    s
}

} // verus!
