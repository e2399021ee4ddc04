use edge_bookmarks_organizer::embeddings::{group_by_topic, topic_counts, TopicExtractor};
use edge_bookmarks_organizer::Bookmark;

fn make_bookmark(name: &str, url: &str, domain: &str) -> Bookmark {
    Bookmark {
        id: "1".to_string(),
        name: name.to_string(),
        url: url.to_string(),
        normalized_url: url.to_string(),
        domain: domain.to_string(),
        folder_path: "".to_string(),
        date_added: None,
        date_last_used: None,
        topic: None,
    }
}

#[test]
fn test_topic_extraction() {
    let extractor = TopicExtractor::new();

    let github = make_bookmark("Rust GitHub", "[github.com](https://github.com/rust-lang)", "github.com");
    assert_eq!(extractor.extract_topic(&github), Some("Technology".to_string()));

    let youtube = make_bookmark("YouTube", "[youtube.com](https://youtube.com)", "youtube.com");
    assert_eq!(extractor.extract_topic(&youtube), Some("Entertainment".to_string()));
}

#[test]
fn no_keyword_means_no_topic() {
    let extractor = TopicExtractor::default();
    let b = make_bookmark("Zz", "https://qq.example/", "qq.example");
    assert_eq!(extractor.extract_topic(&b), None);
}

#[test]
fn ties_go_to_the_earlier_topic() {
    let extractor = TopicExtractor::new();
    // "news" (News) and "shop" (Shopping) once each: News comes first in the table
    let b = make_bookmark("shop news", "x", "y");
    assert_eq!(extractor.extract_topic(&b), Some("News".to_string()));
    // stemming: "courses" stems like "course"
    let c = make_bookmark("Courses", "x", "y");
    assert_eq!(extractor.extract_topic(&c), Some("Education".to_string()));
}

#[test]
fn assign_and_group_topics() {
    let extractor = TopicExtractor::new();
    let mut bookmarks = vec![
        make_bookmark("Bank", "https://bank.example/", "bank.example"),
        make_bookmark("Zz", "https://qq.example/", "qq.example"),
        make_bookmark("Money", "https://m.example/", "m.example"),
    ];
    extractor.assign_topics(&mut bookmarks);
    assert_eq!(bookmarks[0].topic.as_deref(), Some("Finance"));
    assert_eq!(bookmarks[1].topic, None);
    let groups = group_by_topic(&bookmarks);
    assert_eq!(groups.len(), 2);
    assert_eq!(groups[0].0, "Finance");
    assert_eq!(groups[0].1.len(), 2);
    assert_eq!(groups[1].0, "Uncategorized");
    let counts: Vec<(String, usize)> = topic_counts(&bookmarks).into_iter().map(|c| (c.name, c.count)).collect();
    assert_eq!(counts, vec![("Finance".to_string(), 2), ("Uncategorized".to_string(), 1)]);
}

#[test]
fn topic_for_stemmed_tokens() {
    let extractor = TopicExtractor::new();
    let words = |ws: &[&str]| ws.iter().map(|w| w.to_string()).collect::<Vec<String>>();
    assert_eq!(extractor.topic_for_tokens(&words(&["rust", "python", "news"])), Some("Development".to_string()));
    assert_eq!(extractor.topic_for_tokens(&words(&["bank", "news"])), Some("News".to_string()));
    assert_eq!(extractor.topic_for_tokens(&words(&["nothing", "here"])), None);
    assert_eq!(extractor.topic_for_tokens(&Vec::new()), None);
}

#[test]
fn inflected_words_match_through_stems() {
    let extractor = TopicExtractor::new();
    let b = make_bookmark("Developers corner", "https://zq.example/", "zq.example");
    assert_eq!(extractor.extract_topic(&b), Some("Technology".to_string()));
    let c = make_bookmark("Investing basics", "https://zq.example/", "zq.example");
    assert_eq!(extractor.extract_topic(&c), Some("Finance".to_string()));
}
