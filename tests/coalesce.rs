use marker_scan::coalesce::iter_continuous_range;
use marker_scan::search::{coalesce_by_sequence, Sample};
use marker_scan::timestamp::VideoTimestamp;

#[test]
fn test_iter_continuous_range() {
    let v = vec![1, 2, 3, 5, 6, 7, 9, 10, 11];
    let refs: Vec<&i32> = v.iter().collect();
    let ranges = iter_continuous_range(&refs, |a: &&i32, b: &&i32| **a + 1 == **b);
    let mut iter = ranges.into_iter();
    assert_eq!(iter.next(), Some((&1, &3)));
    assert_eq!(iter.next(), Some((&5, &7)));
    assert_eq!(iter.next(), Some((&9, &11)));
    assert_eq!(iter.next(), None);

    let v = Vec::<i32>::new();
    let refs: Vec<&i32> = v.iter().collect();
    let ranges = iter_continuous_range(&refs, |a: &&i32, b: &&i32| **a + 1 == **b);
    let mut iter = ranges.into_iter();
    assert_eq!(iter.next(), None);
}

#[test]
fn single_item_gives_degenerate_run() {
    let v = vec![4];
    let ranges = iter_continuous_range(&v, |a: &i32, b: &i32| *a + 1 == *b);
    assert_eq!(ranges, vec![(4, 4)]);
}

#[test]
fn predicate_called_once_per_neighbour_pair() {
    let v = vec![1, 2, 3, 5, 6, 7, 9, 10, 11];
    let calls = std::cell::Cell::new(0);
    let ranges = iter_continuous_range(&v, |a: &i32, b: &i32| {
        calls.set(calls.get() + 1);
        *a + 1 == *b
    });
    assert_eq!(ranges, vec![(1, 3), (5, 7), (9, 11)]);
    assert_eq!(calls.get(), 8);
}

#[test]
fn all_isolated_items_are_their_own_runs() {
    let v = vec![1, 3, 5];
    let ranges = iter_continuous_range(&v, |a: &i32, b: &i32| *a + 1 == *b);
    assert_eq!(ranges, vec![(1, 1), (3, 3), (5, 5)]);
}

fn sample(seq: u64) -> Sample {
    Sample { seq, timestamp: VideoTimestamp::from_millis(seq * 1000 - 500), marked: true }
}

#[test]
fn coalesce_by_sequence_numbers() {
    let v: Vec<Sample> = [1, 2, 3, 5, 6, 7, 9, 10, 11].iter().map(|s| sample(*s)).collect();
    let runs = coalesce_by_sequence(&v);
    let seqs: Vec<(u64, u64)> = runs.iter().map(|(a, b)| (a.seq, b.seq)).collect();
    assert_eq!(seqs, vec![(1, 3), (5, 7), (9, 11)]);
    assert!(coalesce_by_sequence(&Vec::new()).is_empty());
}
