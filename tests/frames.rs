use marker_scan::cache::{window_dir_name, CacheAction, CacheKey, FrameCache};
use marker_scan::frames::{collect_thumbnails, frame_timestamp, FrameError};
use marker_scan::timestamp::VideoTimestamp;

fn entry(name: &str) -> (String, String) {
    (name.to_string(), format!("/cache/{}", name))
}

#[test]
fn lists_frames_at_one_per_second() {
    let entries = vec![entry("thumb0002.jpg"), entry("notes.txt"), entry("thumb0001.jpg")];
    let frames = collect_thumbnails(&entries, None, (1, 1)).unwrap();
    assert_eq!(frames.len(), 2);
    assert_eq!(frames[0].seq, 1);
    assert_eq!(frames[0].path, "/cache/thumb0001.jpg");
    assert_eq!(frames[0].timestamp, VideoTimestamp { seconds: 0, milliseconds: 500 });
    assert_eq!(frames[1].seq, 2);
    assert_eq!(frames[1].timestamp, VideoTimestamp { seconds: 1, milliseconds: 500 });
}

#[test]
fn lists_frames_in_a_window() {
    let from = VideoTimestamp { seconds: 8, milliseconds: 500 };
    let entries = vec![entry("thumb0046.jpg")];
    let frames = collect_thumbnails(&entries, Some(from), (30, 1)).unwrap();
    assert_eq!(frames[0].timestamp, VideoTimestamp { seconds: 10, milliseconds: 17 });
}

#[test]
fn unparsable_frame_name_is_corrupt() {
    let entries = vec![entry("thumb0001.jpg"), entry("thumbXY.jpg")];
    assert_eq!(collect_thumbnails(&entries, None, (1, 1)).err(), Some(FrameError::CacheCorrupt));
    let entries = vec![entry("thumb.jpg")];
    assert_eq!(collect_thumbnails(&entries, None, (1, 1)).err(), Some(FrameError::CacheCorrupt));
    let entries = vec![entry("thumb0000.jpg")];
    assert_eq!(collect_thumbnails(&entries, None, (1, 1)).err(), Some(FrameError::CacheCorrupt));
    let entries = vec![entry("thumb99999999999999999999.jpg")];
    assert_eq!(collect_thumbnails(&entries, None, (1, 1)).err(), Some(FrameError::CacheCorrupt));
}

#[test]
fn number_parses_as_u64_from_str_does() {
    let entries = vec![entry("thumb+5.jpg")];
    let frames = collect_thumbnails(&entries, None, (1, 1)).unwrap();
    assert_eq!(frames[0].seq, 5);
}

#[test]
fn frame_timestamp_rounds_to_millis() {
    let t = frame_timestamp(VideoTimestamp::zero(), 1, 30, 1).unwrap();
    assert_eq!(t, VideoTimestamp { seconds: 0, milliseconds: 17 });
    assert_eq!(frame_timestamp(VideoTimestamp::zero(), 0, 30, 1), None);
}

#[test]
fn second_request_lists_without_extracting() {
    let key = CacheKey { from: None, to: None, fps_num: 1, fps_den: 1 };
    let mut cache = FrameCache::new();
    assert_eq!(cache.request(&key), CacheAction::Extract);
    cache.mark_populated(key);
    assert_eq!(cache.request(&key), CacheAction::List);
    assert!(cache.is_populated(&key));
    let other = CacheKey { from: Some(VideoTimestamp::zero()), to: None, fps_num: 30, fps_den: 1 };
    assert_eq!(cache.request(&other), CacheAction::Extract);
}

#[test]
fn listing_twice_gives_the_same_frames() {
    let entries = vec![entry("thumb0003.jpg"), entry("thumb0004.jpg")];
    let a = collect_thumbnails(&entries, None, (1, 1)).unwrap();
    let b = collect_thumbnails(&entries, None, (1, 1)).unwrap();
    let va: Vec<(u64, String, VideoTimestamp)> = a.into_iter().map(|t| (t.seq, t.path, t.timestamp)).collect();
    let vb: Vec<(u64, String, VideoTimestamp)> = b.into_iter().map(|t| (t.seq, t.path, t.timestamp)).collect();
    assert_eq!(va, vb);
}

#[test]
fn window_directory_name() {
    let a = VideoTimestamp { seconds: 8, milliseconds: 500 };
    let b = VideoTimestamp { seconds: 12, milliseconds: 500 };
    assert_eq!(window_dir_name(&a, &b), "00:00:08.500-00:00:12.500");
}

#[test]
fn a_run_plan_extracts_each_key_once() {
    let a = CacheKey { from: None, to: None, fps_num: 1, fps_den: 1 };
    let b = CacheKey { from: Some(VideoTimestamp::zero()), to: None, fps_num: 30, fps_den: 1 };
    let mut cache = FrameCache::new();
    let first = cache.plan_run(&vec![a, b, a]);
    assert_eq!(first, vec![CacheAction::Extract, CacheAction::Extract, CacheAction::List]);
    let second = cache.plan_run(&vec![a, b, a]);
    assert_eq!(second, vec![CacheAction::List, CacheAction::List, CacheAction::List]);
}

#[test]
fn listing_is_in_sequence_order() {
    let entries = vec![
        entry("thumb0010.jpg"),
        entry("thumb0002.jpg"),
        entry("thumb0007.jpg"),
        entry("thumb0001.jpg"),
    ];
    let frames = collect_thumbnails(&entries, None, (1, 1)).unwrap();
    let seqs: Vec<u64> = frames.iter().map(|t| t.seq).collect();
    assert_eq!(seqs, vec![1, 2, 7, 10]);
}
