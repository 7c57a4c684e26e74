use marker_scan::clips::{
    audio_select_filter, clip_plan, concat_filter, select_expression, subtitle_text,
    video_select_filter,
};
use marker_scan::search::ClipsInfo;
use marker_scan::timestamp::VideoTimestamp;

fn r(a: u64, b: u64) -> (VideoTimestamp, VideoTimestamp) {
    (VideoTimestamp::from_millis(a), VideoTimestamp::from_millis(b))
}

#[test]
fn select_terms_are_joined() {
    assert_eq!(select_expression(&vec![]), "");
    assert_eq!(select_expression(&vec![r(1500, 3000)]), "between(t,1.500,3.000)");
    assert_eq!(
        select_expression(&vec![r(1500, 3000), r(62_042, 70_005)]),
        "between(t,1.500,3.000)+between(t,62.042,70.005)"
    );
}

#[test]
fn select_filters() {
    let ranges = vec![r(10_017, 15_983)];
    assert_eq!(
        video_select_filter(&ranges),
        "select='between(t,10.017,15.983)',setpts=N/FRAME_RATE/TB"
    );
    assert_eq!(
        audio_select_filter(&ranges),
        "aselect='between(t,10.017,15.983)',asetpts=N/SR/TB"
    );
}

#[test]
fn concat_graph_with_and_without_subtitles() {
    assert_eq!(
        concat_filter(2, None),
        "[0:v:0][0:a:0][1:v:0][1:a:0]concat=n=2:v=1:a=1[outv][outa]"
    );
    assert_eq!(
        concat_filter(1, Some("data/combined.srt")),
        "[0:v:0][0:a:0]concat=n=1:v=1:a=1[outv][outa];[outv]subtitles=data/combined.srt:force_style='Alignment=1,OutlineColour=&H100000000,BorderStyle=3,Outline=1,Shadow=0,Fontsize=18'[outv]"
    );
}

#[test]
fn subtitles_follow_clip_durations() {
    let clips = vec![
        ("A".to_string(), VideoTimestamp::from_millis(1500)),
        ("B".to_string(), VideoTimestamp::from_millis(2700)),
    ];
    assert_eq!(
        subtitle_text(&clips),
        "1\n00:00:00.000 --> 00:00:01.500\nA\n\n2\n00:00:01.500 --> 00:00:04.200\nB\n\n"
    );
    assert_eq!(subtitle_text(&vec![]), "");
}

#[test]
fn clip_plan_sorts_and_skips() {
    let info = ClipsInfo { ranges: vec![r(5000, 9000), r(1000, 2000)] };
    assert_eq!(clip_plan(&info, false, true), Some(vec![r(1000, 2000), r(5000, 9000)]));
    assert_eq!(clip_plan(&info, true, true), None);
    assert_eq!(clip_plan(&info, true, false), Some(vec![r(1000, 2000), r(5000, 9000)]));
    let empty = ClipsInfo { ranges: vec![] };
    assert_eq!(clip_plan(&empty, false, false), None);
}
