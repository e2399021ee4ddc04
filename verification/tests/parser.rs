use edge_bookmarks_organizer::bookmark::{BookmarkRoots, BookmarksFile, RawBookmarkNode};
use edge_bookmarks_organizer::parser::{
    domain_of_parsed, extract_domain, normalize_parsed, normalize_url, parse_bookmarks, UrlParts,
};

fn node(id: &str, name: &str, kind: &str, url: Option<&str>, children: Option<Vec<RawBookmarkNode>>) -> RawBookmarkNode {
    RawBookmarkNode {
        id: id.to_string(),
        name: name.to_string(),
        node_type: kind.to_string(),
        url: url.map(|u| u.to_string()),
        children,
        date_added: None,
        date_last_used: None,
        extra: Vec::new(),
    }
}

fn file(bar: RawBookmarkNode, other: RawBookmarkNode, synced: Option<RawBookmarkNode>) -> BookmarksFile {
    BookmarksFile {
        checksum: "x".to_string(),
        roots: BookmarkRoots { bookmark_bar: bar, other, synced, extra: Vec::new() },
        version: 1,
        extra: Vec::new(),
    }
}

#[test]
fn test_normalize_url() {
    assert_eq!(normalize_url("https://Example.COM/path/"), "https://example.com/path");
    assert_eq!(normalize_url("http://test.com:80/page"), "http://test.com/page");
    assert_eq!(normalize_url("https://test.com:443/"), "https://test.com/");
}

#[test]
fn test_extract_domain() {
    assert_eq!(extract_domain("https://www.example.com/path"), "www.example.com");
    assert_eq!(extract_domain("http://TEST.COM"), "test.com");
    assert_eq!(extract_domain("invalid-url"), "unknown");
}

#[test]
fn test_parse_bookmarks_skips_root_wrapper_name() {
    let url_node = RawBookmarkNode {
        id: "10".to_string(),
        name: "Example".to_string(),
        node_type: "url".to_string(),
        url: Some("https://example.com".to_string()),
        children: None,
        date_added: None,
        date_last_used: None,
        extra: Vec::new(),
    };

    let fav_folder = RawBookmarkNode {
        id: "5".to_string(),
        name: "Favorites bar".to_string(),
        node_type: "folder".to_string(),
        url: None,
        children: Some(vec![url_node]),
        date_added: None,
        date_last_used: None,
        extra: Vec::new(),
    };

    let bookmark_bar = RawBookmarkNode {
        id: "1".to_string(),
        name: "Bookmarks Bar".to_string(),
        node_type: "folder".to_string(),
        url: None,
        children: Some(vec![fav_folder]),
        date_added: None,
        date_last_used: None,
        extra: Vec::new(),
    };

    let other = RawBookmarkNode {
        id: "2".to_string(),
        name: "Other bookmarks".to_string(),
        node_type: "folder".to_string(),
        url: None,
        children: Some(vec![]),
        date_added: None,
        date_last_used: None,
        extra: Vec::new(),
    };

    let file = BookmarksFile {
        checksum: "x".to_string(),
        roots: BookmarkRoots {
            bookmark_bar,
            other,
            synced: None,
            extra: Vec::new(),
        },
        version: 1,
        extra: Vec::new(),
    };

    let bookmarks = parse_bookmarks(&file);
    assert_eq!(bookmarks.len(), 1);
    assert_eq!(bookmarks[0].folder_path, "Favorites bar");
}

#[test]
fn normalize_url_sorts_query_and_drops_default_port_and_fragment() {
    assert_eq!(
        normalize_url("https://Example.com/a/?b=2&a=1#frag"),
        "https://example.com/a?a=1&b=2"
    );
    assert_eq!(normalize_url("http://x.com:8080/p"), "http://x.com:8080/p");
    assert_eq!(normalize_url("http://test.com:8080/page"), "http://test.com:8080/page");
    assert_eq!(normalize_url("https://x.com:443/p"), "https://x.com/p");
    assert_eq!(normalize_url("http://x.com:443/p"), "http://x.com:443/p");
    assert_eq!(normalize_url("https://user:pw@x.com/"), "https://x.com/");
    assert_eq!(normalize_url("https://x.com/?"), "https://x.com/?");
}

#[test]
fn normalize_url_falls_back_to_lowercase() {
    assert_eq!(normalize_url("Not A URL"), "not a url");
    assert_eq!(normalize_url(""), "");
}

#[test]
fn extract_domain_without_host() {
    assert_eq!(extract_domain("mailto:someone@example.com"), "unknown");
    assert_eq!(extract_domain("https://Sub.Example.org:8443/x"), "sub.example.org");
}

#[test]
fn parse_bookmarks_walks_nested_folders_and_all_roots() {
    let deep = node("4", "Deep", "url", Some("https://deep.example/"), None);
    let inner = node("3", "Inner", "folder", None, Some(vec![deep]));
    let top = node("2", "Top", "url", Some("https://Top.example/x/"), None);
    let odd = node("9", "Odd", "separator", None, None);
    let no_url = node("8", "NoUrl", "url", None, None);
    let tech = node("5", "Tech", "folder", None, Some(vec![top, inner, odd, no_url]));
    let bar = node("1", "Bookmarks Bar", "folder", None, Some(vec![tech]));
    let loose = node("7", "Loose", "url", Some("https://loose.example"), None);
    let other = node("6", "Other", "folder", None, Some(vec![loose]));
    let synced_url = node("11", "Synced", "url", Some("https://s.example"), None);
    let synced = node("10", "Mobile", "folder", None, Some(vec![synced_url]));
    let bookmarks = parse_bookmarks(&file(bar, other, Some(synced)));
    let got: Vec<(&str, &str, &str, &str)> = bookmarks
        .iter()
        .map(|b| (b.name.as_str(), b.folder_path.as_str(), b.domain.as_str(), b.normalized_url.as_str()))
        .collect();
    assert_eq!(
        got,
        vec![
            ("Top", "Tech", "top.example", "https://top.example/x"),
            ("Deep", "Tech/Inner", "deep.example", "https://deep.example/"),
            ("Loose", "", "loose.example", "https://loose.example/"),
            ("Synced", "", "s.example", "https://s.example/"),
        ]
    );
    assert!(bookmarks.iter().all(|b| b.topic.is_none()));
}

#[test]
fn parse_bookmarks_of_url_root() {
    let bar = node("1", "Only", "url", Some("https://only.example"), None);
    let other = node("2", "Other", "folder", None, None);
    let bookmarks = parse_bookmarks(&file(bar, other, None));
    assert_eq!(bookmarks.len(), 1);
    assert_eq!(bookmarks[0].name, "Only");
    assert_eq!(bookmarks[0].folder_path, "");
}

fn parts(scheme: &str, host: Option<&str>, path: &str, query: Option<&str>) -> UrlParts {
    UrlParts {
        scheme: scheme.to_string(),
        host: host.map(|h| h.to_string()),
        port: None,
        path: path.to_string(),
        query: query.map(|q| q.to_string()),
    }
}

#[test]
fn normalize_parsed_builds_from_parts() {
    let p = Some(parts("https", Some("Example.COM"), "/a/b/", Some("z=1&a=2")));
    assert_eq!(normalize_parsed("ignored", &p), "https://example.com/a/b?a=2&z=1");
    let root = Some(parts("http", Some("x.org"), "/", None));
    assert_eq!(normalize_parsed("ignored", &root), "http://x.org/");
    let no_host = Some(parts("mailto", None, "Someone@Example.com", None));
    assert_eq!(normalize_parsed("ignored", &no_host), "mailto://Someone@Example.com");
    assert_eq!(normalize_parsed("Not A URL", &None), "not a url");
    assert_eq!(normalize_parsed("ÀB", &None), "àb");
    let mut with_port = parts("http", Some("Host.org"), "/x/", None);
    with_port.port = Some(8080);
    assert_eq!(normalize_parsed("ignored", &Some(with_port)), "http://host.org:8080/x");
}

#[test]
fn domain_of_parsed_reads_the_host() {
    assert_eq!(domain_of_parsed(&Some(parts("https", Some("WWW.Site.IO"), "/", None))), "www.site.io");
    assert_eq!(domain_of_parsed(&Some(parts("data", None, "text", None))), "unknown");
    assert_eq!(domain_of_parsed(&None), "unknown");
}
