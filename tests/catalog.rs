use marker_scan::catalog::{
    first_attempt, next_attempt, publication_order, select_videos, CatalogEntry, PlaylistItemSnippet,
};

fn e(id: &str, title: &str, published_ms: i64) -> CatalogEntry {
    CatalogEntry {
        video_id: id.to_string(),
        snippet: PlaylistItemSnippet { title: title.to_string() },
        published_ms,
    }
}

fn catalog() -> Vec<CatalogEntry> {
    vec![
        e("a", "Episode 1", 300),
        e("b", "The Complete First Season", 100),
        e("lED1vIbaivA", "Episode 2", 200),
        e("c", "Complete Season", 200),
        e("d", "Episode 3", 50),
    ]
}

#[test]
fn selects_all_but_excluded() {
    assert_eq!(select_videos(&catalog(), &None), vec!["a", "c", "d"]);
}

#[test]
fn resumes_from_identifier() {
    assert_eq!(select_videos(&catalog(), &Some("c".to_string())), vec!["c", "d"]);
    assert_eq!(select_videos(&catalog(), &Some("b".to_string())), vec!["c", "d"]);
    assert!(select_videos(&catalog(), &Some("zz".to_string())).is_empty());
}

#[test]
fn orders_by_publication_time() {
    assert_eq!(publication_order(&catalog()), vec![4, 1, 2, 3, 0]);
}

#[test]
fn retries_are_bounded() {
    assert_eq!(next_attempt(0, 5), Some(1));
    assert_eq!(next_attempt(3, 5), Some(4));
    assert_eq!(next_attempt(4, 5), None);
    assert_eq!(next_attempt(0, 0), None);
    assert_eq!(first_attempt(5), Some(0));
    assert_eq!(first_attempt(0), None);
}
