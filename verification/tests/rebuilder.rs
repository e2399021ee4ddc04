use edge_bookmarks_organizer::bookmark::{BookmarkRoots, BookmarksFile, RawBookmarkNode};
use edge_bookmarks_organizer::parser::parse_bookmarks;
use edge_bookmarks_organizer::rebuilder::{
    build_folder_node, build_url_node, parse_strategy, rebuild_bookmarks_file, rebuild_by_domain,
    rebuild_by_root_domain, rebuild_by_topic, rebuild_preserve_structure, save_allowed, u64_to_decimal, IdGenerator, OrganizeStrategy,
};
use edge_bookmarks_organizer::Bookmark;

fn bm(name: &str, url: &str, domain: &str, folder: &str) -> Bookmark {
    Bookmark {
        id: "old".to_string(),
        name: name.to_string(),
        url: url.to_string(),
        normalized_url: url.to_string(),
        domain: domain.to_string(),
        folder_path: folder.to_string(),
        date_added: Some("100".to_string()),
        date_last_used: None,
        topic: None,
    }
}

fn kids(n: &RawBookmarkNode) -> &Vec<RawBookmarkNode> {
    n.children.as_ref().unwrap()
}

fn original() -> BookmarksFile {
    let empty = |id: &str| RawBookmarkNode {
        id: id.to_string(),
        name: "r".to_string(),
        node_type: "folder".to_string(),
        url: None,
        children: Some(Vec::new()),
        date_added: None,
        date_last_used: None,
        extra: Vec::new(),
    };
    BookmarksFile {
        checksum: "abc".to_string(),
        roots: BookmarkRoots { bookmark_bar: empty("1"), other: empty("2"), synced: None, extra: Vec::new() },
        version: 7,
        extra: vec![("sync_metadata".to_string(), "\"xyz\"".to_string())],
    }
}

#[test]
fn decimal_identifiers() {
    assert_eq!(u64_to_decimal(0), "0");
    assert_eq!(u64_to_decimal(1203), "1203");
    assert_eq!(u64_to_decimal(u64::MAX), "18446744073709551615");
    let mut g = IdGenerator::new(u64::MAX);
    assert_eq!(g.next(), "18446744073709551615");
    assert_eq!(g.next(), "0");
    assert_eq!(g.next(), "1");
}

#[test]
fn url_and_folder_nodes() {
    let b = bm("A", "https://a.com/", "a.com", "X");
    let u = build_url_node(&b, "42");
    assert_eq!(u.id, "42");
    assert_eq!(u.node_type, "url");
    assert_eq!(u.url.as_deref(), Some("https://a.com/"));
    assert_eq!(u.date_added.as_deref(), Some("100"));
    assert!(u.children.is_none());
    let f = build_folder_node("F", "7", vec![u]);
    assert_eq!(f.node_type, "folder");
    assert_eq!(kids(&f).len(), 1);
}

#[test]
fn rebuild_by_domain_sorts_domains_and_numbers_nodes() {
    let bookmarks = vec![
        bm("1", "https://b.com/1", "b.com", ""),
        bm("2", "https://a.com/2", "a.com", ""),
        bm("3", "https://b.com/3", "b.com", ""),
    ];
    let root = rebuild_by_domain(&bookmarks);
    assert_eq!(root.name, "Organized Bookmarks");
    assert_eq!(root.id, "6");
    let folders = kids(&root);
    assert_eq!(folders.len(), 2);
    assert_eq!((folders[0].name.as_str(), folders[0].id.as_str()), ("a.com", "2"));
    assert_eq!(kids(&folders[0])[0].id, "1");
    assert_eq!((folders[1].name.as_str(), folders[1].id.as_str()), ("b.com", "5"));
    let ids: Vec<(&str, &str)> = kids(&folders[1]).iter().map(|n| (n.name.as_str(), n.id.as_str())).collect();
    assert_eq!(ids, vec![("1", "3"), ("3", "4")]);
}

#[test]
fn rebuild_preserve_structure_nests_folders() {
    let bookmarks = vec![
        bm("top", "https://t.com/", "t.com", ""),
        bm("deep", "https://d.com/", "d.com", "X/Y"),
        bm("mid", "https://m.com/", "m.com", "X"),
        bm("b", "https://b.com/", "b.com", "B"),
    ];
    let root = rebuild_preserve_structure(&bookmarks);
    assert_eq!(root.name, "Bookmarks Bar");
    let top = kids(&root);
    let shape: Vec<(&str, &str, &str)> =
        top.iter().map(|n| (n.name.as_str(), n.node_type.as_str(), n.id.as_str())).collect();
    assert_eq!(shape, vec![("top", "url", "1"), ("B", "folder", "3"), ("X", "folder", "7")]);
    let x = kids(&top[2]);
    let shape: Vec<(&str, &str, &str)> =
        x.iter().map(|n| (n.name.as_str(), n.node_type.as_str(), n.id.as_str())).collect();
    assert_eq!(shape, vec![("mid", "url", "4"), ("Y", "folder", "6")]);
    assert_eq!(kids(&x[1])[0].name, "deep");
    assert_eq!(root.id, "8");
}

#[test]
fn rebuild_file_then_parse_preserves_folders() {
    let bookmarks = vec![
        bm("top", "https://t.com/", "t.com", ""),
        bm("mid", "https://m.com/", "m.com", "X"),
        bm("deep", "https://d.com/", "d.com", "X/Y"),
    ];
    let rebuilt = rebuild_bookmarks_file(&original(), &bookmarks, OrganizeStrategy::PreserveOriginal);
    assert_eq!(rebuilt.checksum, "abc");
    assert_eq!(rebuilt.version, 7);
    assert_eq!(rebuilt.extra.len(), 1);
    assert!(rebuilt.roots.synced.is_none());
    assert_eq!(rebuilt.roots.bookmark_bar.id, "6");
    assert_eq!(rebuilt.roots.other.id, "7");
    assert_eq!(rebuilt.roots.other.name, "Other bookmarks");
    let parsed = parse_bookmarks(&rebuilt);
    let got: Vec<(&str, &str)> = parsed.iter().map(|b| (b.name.as_str(), b.folder_path.as_str())).collect();
    assert_eq!(got, vec![("top", ""), ("mid", "X"), ("deep", "X/Y")]);
}

#[test]
fn rebuild_preserve_structure_creates_intermediate_folders() {
    let bookmarks = vec![
        bm("deep", "https://d.com/", "d.com", "Work/Projects/Rust"),
        bm("other", "https://o.com/", "o.com", "Work/Notes"),
    ];
    let root = rebuild_preserve_structure(&bookmarks);
    let top = kids(&root);
    assert_eq!(top.len(), 1);
    assert_eq!((top[0].name.as_str(), top[0].id.as_str()), ("Work", "6"));
    let work = kids(&top[0]);
    let shape: Vec<(&str, &str)> = work.iter().map(|n| (n.name.as_str(), n.id.as_str())).collect();
    assert_eq!(shape, vec![("Notes", "2"), ("Projects", "5")]);
    let projects = kids(&work[1]);
    assert_eq!((projects[0].name.as_str(), projects[0].id.as_str()), ("Rust", "4"));
    assert_eq!(kids(&projects[0])[0].name, "deep");
    assert_eq!(root.id, "7");
}

#[test]
fn rebuild_file_then_parse_keeps_nested_folders_without_direct_bookmarks() {
    let bookmarks = vec![
        bm("deep", "https://d.com/", "d.com", "Work/Projects/Rust"),
        bm("top", "https://t.com/", "t.com", ""),
        bm("note", "https://n.com/", "n.com", "Work/Notes"),
        bm("lost", "https://l.com/", "l.com", "/odd"),
    ];
    let rebuilt = rebuild_bookmarks_file(&original(), &bookmarks, OrganizeStrategy::PreserveOriginal);
    let parsed = parse_bookmarks(&rebuilt);
    let got: Vec<(&str, &str)> = parsed.iter().map(|b| (b.name.as_str(), b.folder_path.as_str())).collect();
    assert_eq!(got, vec![("top", ""), ("note", "Work/Notes"), ("deep", "Work/Projects/Rust")]);
}

#[test]
fn rebuild_file_by_domain_then_parse() {
    let bookmarks = vec![
        bm("1", "https://b.com/1", "b.com", "Old"),
        bm("2", "https://a.com/2", "a.com", "Old"),
    ];
    let rebuilt = rebuild_bookmarks_file(&original(), &bookmarks, OrganizeStrategy::ByRootDomain);
    let parsed = parse_bookmarks(&rebuilt);
    let got: Vec<(&str, &str)> = parsed.iter().map(|b| (b.name.as_str(), b.folder_path.as_str())).collect();
    assert_eq!(got, vec![("2", "a.com"), ("1", "b.com")]);
}

#[test]
fn strategies_by_name() {
    assert!(matches!(parse_strategy("Domain"), Some(OrganizeStrategy::ByDomain)));
    assert!(matches!(parse_strategy("preserve"), Some(OrganizeStrategy::PreserveOriginal)));
    assert!(matches!(parse_strategy("ORIGINAL"), Some(OrganizeStrategy::PreserveOriginal)));
    assert!(matches!(parse_strategy("topic"), Some(OrganizeStrategy::ByTopic)));
    assert!(parse_strategy("alphabetical").is_none());
}

#[test]
fn saving_needs_bookmarks() {
    assert!(!save_allowed(0));
    assert!(save_allowed(3));
}

fn with_topic(mut b: Bookmark, topic: Option<&str>) -> Bookmark {
    b.topic = topic.map(|t| t.to_string());
    b
}

#[test]
fn rebuild_by_topic_nests_domains_in_topics() {
    let bookmarks = vec![
        with_topic(bm("A", "https://cnn.com/a", "cnn.com", "Old"), Some("News")),
        with_topic(bm("B", "https://x.org/", "x.org", "Old"), None),
        with_topic(bm("C", "https://bbc.co.uk/", "bbc.co.uk", ""), Some("News")),
        with_topic(bm("D", "https://cnn.com/d", "cnn.com", "Old"), Some("News")),
    ];
    let root = rebuild_by_topic(&bookmarks);
    assert_eq!((root.name.as_str(), root.id.as_str()), ("Organized Bookmarks", "10"));
    let topics: Vec<(&str, &str)> = kids(&root).iter().map(|n| (n.name.as_str(), n.id.as_str())).collect();
    assert_eq!(topics, vec![("News", "6"), ("Uncategorized", "9")]);
    let news: Vec<(&str, &str)> = kids(&kids(&root)[0]).iter().map(|n| (n.name.as_str(), n.id.as_str())).collect();
    assert_eq!(news, vec![("bbc.co.uk", "2"), ("cnn.com", "5")]);
    let cnn: Vec<(&str, &str)> =
        kids(&kids(&kids(&root)[0])[1]).iter().map(|n| (n.name.as_str(), n.id.as_str())).collect();
    assert_eq!(cnn, vec![("A", "3"), ("D", "4")]);
}

#[test]
fn rebuild_file_by_topic_then_parse() {
    let bookmarks = vec![
        with_topic(bm("A", "https://cnn.com/a", "cnn.com", "Old"), Some("News")),
        with_topic(bm("B", "https://x.org/", "x.org", "Old"), None),
        with_topic(bm("C", "https://bbc.co.uk/", "bbc.co.uk", ""), Some("News")),
        with_topic(bm("D", "https://cnn.com/d", "cnn.com", "Old"), Some("News")),
    ];
    let rebuilt = rebuild_bookmarks_file(&original(), &bookmarks, OrganizeStrategy::ByTopic);
    let parsed = parse_bookmarks(&rebuilt);
    let got: Vec<(&str, &str)> = parsed.iter().map(|b| (b.name.as_str(), b.folder_path.as_str())).collect();
    assert_eq!(
        got,
        vec![("C", "News/bbc.co.uk"), ("A", "News/cnn.com"), ("D", "News/cnn.com"), ("B", "Uncategorized/x.org")]
    );
}

#[test]
fn rebuild_by_root_domain_folds_subdomains() {
    let bookmarks = vec![
        bm("1", "https://www.a.com/", "www.a.com", ""),
        bm("2", "https://b.com/", "b.com", ""),
        bm("3", "https://old.a.com/", "old.a.com", ""),
    ];
    let root = rebuild_by_root_domain(&bookmarks);
    let folders: Vec<(&str, &str)> = kids(&root).iter().map(|n| (n.name.as_str(), n.id.as_str())).collect();
    assert_eq!(folders, vec![("a.com", "3"), ("b.com", "5")]);
    let a: Vec<&str> = kids(&kids(&root)[0]).iter().map(|n| n.name.as_str()).collect();
    assert_eq!(a, vec!["1", "3"]);
    let rebuilt = rebuild_bookmarks_file(&original(), &bookmarks, OrganizeStrategy::ByRootDomain);
    let parsed = parse_bookmarks(&rebuilt);
    let got: Vec<(&str, &str)> = parsed.iter().map(|b| (b.name.as_str(), b.folder_path.as_str())).collect();
    assert_eq!(got, vec![("1", "a.com"), ("3", "a.com"), ("2", "b.com")]);
}

fn collect_ids(n: &RawBookmarkNode, out: &mut Vec<String>) {
    if let Some(cs) = &n.children {
        for c in cs {
            collect_ids(c, out);
        }
    }
    out.push(n.id.clone());
}

#[test]
fn rebuilt_file_ids_are_distinct_for_every_strategy() {
    let bookmarks = vec![
        with_topic(bm("A", "https://cnn.com/a", "www.cnn.com", "Work/News"), Some("News")),
        with_topic(bm("B", "https://x.org/", "x.org", ""), None),
        with_topic(bm("C", "https://bbc.co.uk/", "bbc.co.uk", "Work"), Some("News")),
    ];
    for strategy in [
        OrganizeStrategy::PreserveOriginal,
        OrganizeStrategy::ByDomain,
        OrganizeStrategy::ByRootDomain,
        OrganizeStrategy::ByTopic,
    ] {
        let rebuilt = rebuild_bookmarks_file(&original(), &bookmarks, strategy);
        let mut ids = Vec::new();
        collect_ids(&rebuilt.roots.bookmark_bar, &mut ids);
        collect_ids(&rebuilt.roots.other, &mut ids);
        let expected: Vec<String> = (1..=ids.len()).map(|k| k.to_string()).collect();
        assert_eq!(ids, expected);
    }
}

#[test]
fn preserve_rewrite_gives_every_record_back() {
    let mk = |name: &str, url: &str, folder: &str| {
        let mut b = bm(name, url, "", folder);
        b.normalized_url = edge_bookmarks_organizer::parser::normalize_url(url);
        b.domain = edge_bookmarks_organizer::parser::extract_domain(url);
        b
    };
    let bookmarks = vec![
        mk("a", "https://a.com/", "Work/Deep/Er"),
        mk("b", "https://B.com/x/", ""),
        mk("c", "https://c.com/", "Work"),
        mk("a", "https://a.com/", "Work/Deep/Er"),
        mk("d", "https://d.com/?z=1&a=2", "Home"),
    ];
    let rebuilt = rebuild_bookmarks_file(&original(), &bookmarks, OrganizeStrategy::PreserveOriginal);
    let parsed = parse_bookmarks(&rebuilt);
    let record = |b: &Bookmark| {
        (
            b.name.clone(),
            b.url.clone(),
            b.normalized_url.clone(),
            b.domain.clone(),
            b.folder_path.clone(),
            b.date_added.clone(),
            b.date_last_used.clone(),
        )
    };
    let mut got: Vec<_> = parsed.iter().map(record).collect();
    let mut want: Vec<_> = bookmarks.iter().map(record).collect();
    got.sort();
    want.sort();
    assert_eq!(got, want);
    assert!(parsed.iter().all(|b| b.topic.is_none()));
}
