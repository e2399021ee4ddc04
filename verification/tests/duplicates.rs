use edge_bookmarks_organizer::duplicates::{
    find_duplicates, get_duplicate_stats, remove_duplicates, remove_duplicates_keep_recent,
};
use edge_bookmarks_organizer::Bookmark;

fn make_bookmark(id: &str, url: &str, normalized: &str) -> Bookmark {
    Bookmark {
        id: id.to_string(),
        name: format!("Bookmark {}", id),
        url: url.to_string(),
        normalized_url: normalized.to_string(),
        domain: "example.com".to_string(),
        folder_path: "".to_string(),
        date_added: None,
        date_last_used: None,
        topic: None,
    }
}

fn used(id: &str, normalized: &str, last_used: Option<&str>) -> Bookmark {
    let mut b = make_bookmark(id, normalized, normalized);
    b.date_last_used = last_used.map(|s| s.to_string());
    b
}

#[test]
fn test_find_duplicates() {
    let bookmarks = vec![
        make_bookmark("1", "[example.com](https://example.com/)", "[example.com](https://example.com)"),
        make_bookmark("2", "[example.com](https://example.com)", "[example.com](https://example.com)"),
        make_bookmark("3", "[other.com](https://other.com/)", "[other.com](https://other.com)"),
    ];

    let dupes = find_duplicates(&bookmarks);
    assert_eq!(dupes.len(), 1);
    assert_eq!(dupes[0].bookmarks.len(), 2);
}

#[test]
fn test_remove_duplicates() {
    let bookmarks = vec![
        make_bookmark("1", "[example.com](https://example.com/)", "[example.com](https://example.com)"),
        make_bookmark("2", "[example.com](https://example.com)", "[example.com](https://example.com)"),
        make_bookmark("3", "[other.com](https://other.com/)", "[other.com](https://other.com)"),
    ];

    let deduped = remove_duplicates(bookmarks);
    assert_eq!(deduped.len(), 2);
}

#[test]
fn find_duplicates_groups_in_first_occurrence_order() {
    let bookmarks = vec![
        make_bookmark("1", "u", "b"),
        make_bookmark("2", "u", "a"),
        make_bookmark("3", "u", "b"),
        make_bookmark("4", "u", "a"),
        make_bookmark("5", "u", "c"),
        make_bookmark("6", "u", "a"),
    ];
    let dupes = find_duplicates(&bookmarks);
    assert_eq!(dupes.len(), 2);
    assert_eq!(dupes[0].normalized_url, "b");
    let ids: Vec<&str> = dupes[0].bookmarks.iter().map(|b| b.id.as_str()).collect();
    assert_eq!(ids, vec!["1", "3"]);
    assert_eq!(dupes[1].normalized_url, "a");
    let ids: Vec<&str> = dupes[1].bookmarks.iter().map(|b| b.id.as_str()).collect();
    assert_eq!(ids, vec!["2", "4", "6"]);
}

#[test]
fn find_duplicates_of_empty_list() {
    assert!(find_duplicates(&[]).is_empty());
}

#[test]
fn remove_duplicates_keeps_first_occurrence() {
    let bookmarks = vec![
        make_bookmark("1", "u", "x"),
        make_bookmark("2", "u", "y"),
        make_bookmark("3", "u", "x"),
        make_bookmark("4", "u", "z"),
        make_bookmark("5", "u", "y"),
    ];
    let ids: Vec<String> = remove_duplicates(bookmarks).into_iter().map(|b| b.id).collect();
    assert_eq!(ids, vec!["1", "2", "4"]);
}

#[test]
fn keep_recent_prefers_latest_use_then_first() {
    let bookmarks = vec![
        used("1", "u", Some("5")),
        used("2", "u", Some("9")),
        used("3", "v", None),
        used("4", "u", Some("9")),
        used("5", "v", None),
        used("6", "w", None),
        used("7", "w", Some("1")),
    ];
    let ids: Vec<String> = remove_duplicates_keep_recent(bookmarks).into_iter().map(|b| b.id).collect();
    assert_eq!(ids, vec!["2", "3", "7"]);
}

#[test]
fn keep_recent_compares_timestamps_by_value() {
    let bookmarks = vec![used("1", "u", Some("10")), used("2", "u", Some("9"))];
    let ids: Vec<String> = remove_duplicates_keep_recent(bookmarks).into_iter().map(|b| b.id).collect();
    assert_eq!(ids, vec!["1"]);
    let bookmarks = vec![used("1", "u", Some("9")), used("2", "u", Some("13")), used("3", "u", Some("12"))];
    let ids: Vec<String> = remove_duplicates_keep_recent(bookmarks).into_iter().map(|b| b.id).collect();
    assert_eq!(ids, vec!["2"]);
    // leading zeros do not change a value: equal values keep the first
    let bookmarks = vec![used("1", "u", Some("9")), used("2", "u", Some("09"))];
    let ids: Vec<String> = remove_duplicates_keep_recent(bookmarks).into_iter().map(|b| b.id).collect();
    assert_eq!(ids, vec!["1"]);
    let bookmarks = vec![used("1", "u", Some("010")), used("2", "u", Some("9"))];
    let ids: Vec<String> = remove_duplicates_keep_recent(bookmarks).into_iter().map(|b| b.id).collect();
    assert_eq!(ids, vec!["1"]);
}

#[test]
fn duplicate_stats_count_extra_copies() {
    let bookmarks = vec![
        make_bookmark("1", "u", "a"),
        make_bookmark("2", "u", "a"),
        make_bookmark("3", "u", "a"),
        make_bookmark("4", "u", "b"),
        make_bookmark("5", "u", "c"),
        make_bookmark("6", "u", "c"),
    ];
    let stats = get_duplicate_stats(&bookmarks);
    assert_eq!(stats.total_duplicates, 3);
    assert_eq!(stats.unique_urls_with_dupes, 2);
    assert_eq!(stats.groups.len(), 2);
    // every extra copy is what deduplication removes
    let kept = remove_duplicates(bookmarks.clone()).len();
    assert_eq!(kept + stats.total_duplicates, bookmarks.len());
    assert_eq!(remove_duplicates_keep_recent(bookmarks).len(), kept);
}
