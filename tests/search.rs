use marker_scan::search::{
    assemble, coarse_candidates, drop_short, first_marked, last_marker_end, refine_boundaries,
    refine_window, sort_by_seq, Boundary, Sample, SearchError,
};
use marker_scan::timestamp::VideoTimestamp;

fn ms(t: &VideoTimestamp) -> u64 {
    t.seconds * 1000 + t.milliseconds
}

/// The synthetic video shows the marker from 10.0 s to 16.0 s and from 40.0 s
/// to 41.0 s.
fn marker_at(total_ms: u64) -> bool {
    (10_000..16_000).contains(&total_ms) || (40_000..41_000).contains(&total_ms)
}

/// Frames sampled at `num` per second over a window starting at `from`.
fn sampled(from: VideoTimestamp, num: u64, count: u64) -> Vec<Sample> {
    (1..=count)
        .map(|seq| {
            let ts = marker_scan::frames::frame_timestamp(from, seq, num, 1).unwrap();
            Sample { seq, timestamp: ts, marked: marker_at(ms(&ts)) }
        })
        .collect()
}

#[test]
fn end_to_end_synthetic_video() {
    let mut coarse = sampled(VideoTimestamp::zero(), 1, 60);
    coarse.reverse();
    let candidates = coarse_candidates(&coarse);
    assert_eq!(candidates.len(), 1);
    let (rough_start, rough_end) = candidates[0];
    let mut found = Vec::new();
    let (a, _) = refine_window(rough_start.timestamp);
    let (b, _) = refine_window(rough_end.timestamp);
    let start_window = sort_by_seq(&sampled(a, 30, 120));
    let end_window = sort_by_seq(&sampled(b, 30, 120));
    found.push(refine_boundaries(&start_window, &end_window).unwrap());
    let result = assemble(&found);
    assert_eq!(result.len(), 1);
    let (s, e) = result[0];
    assert!(ms(&s) >= 10_000 && ms(&s) - 10_000 <= 34);
    assert!(ms(&e) < 16_000 && 16_000 - ms(&e) <= 34);
}

#[test]
fn short_runs_are_dropped() {
    let coarse = sampled(VideoTimestamp::zero(), 1, 60);
    let candidates = coarse_candidates(&coarse);
    assert_eq!(candidates.len(), 1);
    assert_eq!(candidates[0].0.seq, 11);
    assert_eq!(candidates[0].1.seq, 16);
    let none = drop_short(&vec![(candidates[0].0, candidates[0].0)]);
    assert!(none.is_empty());
}

#[test]
fn exactly_four_seconds_is_dropped() {
    let s = |seq: u64, t: u64| Sample { seq, timestamp: VideoTimestamp::from_millis(t), marked: true };
    assert!(drop_short(&vec![(s(1, 500), s(5, 4500))]).is_empty());
    assert_eq!(drop_short(&vec![(s(1, 500), s(5, 4501))]).len(), 1);
}

#[test]
fn assembly_ignores_completion_order() {
    let r = |a: u64, b: u64| (VideoTimestamp::from_millis(a), VideoTimestamp::from_millis(b));
    let one = vec![r(5000, 9000), r(1000, 2000), r(5000, 7000), r(300, 400)];
    let two = vec![r(5000, 7000), r(300, 400), r(5000, 9000), r(1000, 2000)];
    let a = assemble(&one);
    let b = assemble(&two);
    assert_eq!(a, b);
    assert_eq!(a, vec![r(300, 400), r(1000, 2000), r(5000, 7000), r(5000, 9000)]);
}

#[test]
fn refinement_errors_name_the_boundary() {
    let s = |seq: u64, marked: bool| Sample { seq, timestamp: VideoTimestamp::from_millis(seq), marked };
    let none = vec![s(1, false), s(2, false)];
    let some = vec![s(1, true), s(2, false)];
    let no_end = vec![s(1, false), s(2, true)];
    assert_eq!(
        refine_boundaries(&none, &some),
        Err(SearchError::BoundaryNotFound(Boundary::Start))
    );
    assert_eq!(
        refine_boundaries(&some, &no_end),
        Err(SearchError::BoundaryNotFound(Boundary::End))
    );
}

#[test]
fn end_is_the_last_transition() {
    let s = |seq: u64, marked: bool| Sample { seq, timestamp: VideoTimestamp::from_millis(seq), marked };
    let w = vec![s(1, true), s(2, false), s(3, true), s(4, true), s(5, false), s(6, false)];
    assert_eq!(last_marker_end(&w), Some(3));
    assert_eq!(first_marked(&w), Some(0));
    assert_eq!(first_marked(&vec![s(1, false)]), None);
}

#[test]
fn window_is_two_seconds_each_side() {
    let (a, b) = refine_window(VideoTimestamp { seconds: 1, milliseconds: 500 });
    assert_eq!(a, VideoTimestamp { seconds: 0, milliseconds: 0 });
    assert_eq!(b, VideoTimestamp { seconds: 3, milliseconds: 500 });
    let (a, b) = refine_window(VideoTimestamp { seconds: 10, milliseconds: 500 });
    assert_eq!(a, VideoTimestamp { seconds: 8, milliseconds: 500 });
    assert_eq!(b, VideoTimestamp { seconds: 12, milliseconds: 500 });
}

#[test]
fn refined_range_must_not_be_empty() {
    let s = |seq: u64, t: u64, marked: bool| Sample { seq, timestamp: VideoTimestamp::from_millis(t), marked };
    let start = vec![s(1, 5000, false), s(2, 5033, true)];
    let end = vec![s(1, 4000, true), s(2, 4033, false)];
    assert_eq!(refine_boundaries(&start, &end), Err(SearchError::EmptyRange));
    let end = vec![s(1, 9000, true), s(2, 9033, false)];
    assert_eq!(
        refine_boundaries(&start, &end),
        Ok((VideoTimestamp::from_millis(5033), VideoTimestamp::from_millis(9000)))
    );
}
