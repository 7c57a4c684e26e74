use marker_scan::timestamp::VideoTimestamp;

#[test]
fn sum_is_normalized() {
    let t = VideoTimestamp::from_millis(1500).plus(VideoTimestamp::from_millis(700));
    assert_eq!(t.seconds, 2);
    assert_eq!(t.milliseconds, 200);
}

#[test]
fn add_seconds_stops_at_zero() {
    let t = VideoTimestamp { seconds: 1, milliseconds: 500 };
    let r = t.add_seconds(-2);
    assert_eq!(r.seconds, 0);
    assert_eq!(r.milliseconds, 0);
    let r = t.add_seconds(-1);
    assert_eq!(r.seconds, 0);
    assert_eq!(r.milliseconds, 500);
    let r = t.add_seconds(2);
    assert_eq!(r.seconds, 3);
    assert_eq!(r.milliseconds, 500);
}

#[test]
fn order_is_by_seconds_then_milliseconds() {
    let a = VideoTimestamp { seconds: 1, milliseconds: 999 };
    let b = VideoTimestamp { seconds: 2, milliseconds: 0 };
    let c = VideoTimestamp { seconds: 2, milliseconds: 1 };
    assert!(a < b && b < c && a < c);
    assert!(!(b < a) && !(b < b));
    assert!(a.lt(&b));
    assert!(!b.lt(&b));
    assert_eq!(b.partial_cmp(&b), Some(std::cmp::Ordering::Equal));
    assert_eq!(c.cmp(&a), std::cmp::Ordering::Greater);
}

#[test]
fn text_form_is_padded() {
    let t = VideoTimestamp { seconds: 3725, milliseconds: 42 };
    assert_eq!(t.as_ffmpeg_arg(), "01:02:05.042");
    assert_eq!(VideoTimestamp::zero().as_ffmpeg_arg(), "00:00:00.000");
    let long = VideoTimestamp { seconds: 360000, milliseconds: 7 };
    assert_eq!(long.as_ffmpeg_arg(), "100:00:00.007");
}

#[test]
fn hms_parts() {
    let t = VideoTimestamp { seconds: 3725, milliseconds: 0 };
    assert_eq!(t.as_hms(), (1, 2, 5));
}

#[test]
fn normalize_carries() {
    let mut t = VideoTimestamp { seconds: 3, milliseconds: 2500 };
    t.normalize();
    assert_eq!(t, VideoTimestamp { seconds: 5, milliseconds: 500 });
}

#[test]
fn from_millis_splits() {
    let t = VideoTimestamp::from_millis(10017);
    assert_eq!((t.seconds, t.milliseconds), (10, 17));
}
