use edge_bookmarks_organizer::organizer::{
    domains_with_min_count, extract_root_domain, get_domain_stats, group_by_domain,
    group_by_root_domain, subfolder_counts, top_level_folder_counts,
};
use edge_bookmarks_organizer::Bookmark;

fn bm(name: &str, domain: &str, folder: &str) -> Bookmark {
    Bookmark {
        id: name.to_string(),
        name: name.to_string(),
        url: format!("https://{}/", domain),
        normalized_url: format!("https://{}", domain),
        domain: domain.to_string(),
        folder_path: folder.to_string(),
        date_added: None,
        date_last_used: None,
        topic: None,
    }
}

#[test]
fn test_extract_root_domain() {
    assert_eq!(extract_root_domain("www.reddit.com"), "reddit.com");
    assert_eq!(extract_root_domain("old.reddit.com"), "reddit.com");
    assert_eq!(extract_root_domain("reddit.com"), "reddit.com");
    assert_eq!(extract_root_domain("example.co.uk"), "example.co.uk");
    assert_eq!(extract_root_domain("sub.example.co.uk"), "example.co.uk");
}

#[test]
fn extract_root_domain_edge_cases() {
    assert_eq!(extract_root_domain("localhost"), "localhost");
    assert_eq!(extract_root_domain(""), "");
    assert_eq!(extract_root_domain("a.b.c.d"), "c.d");
    assert_eq!(extract_root_domain("x.y.com.au"), "y.com.au");
    assert_eq!(extract_root_domain("example.com.au"), "example.com.au");
    assert_eq!(extract_root_domain("foo.co.abc"), "co.abc");
    assert_eq!(extract_root_domain("a.b.gov.é"), "b.gov.é");
    assert_eq!(extract_root_domain("a.b.gov.éé"), "gov.éé");
}

#[test]
fn group_by_domain_keeps_input_order() {
    let bookmarks = vec![bm("1", "b.com", ""), bm("2", "a.com", ""), bm("3", "b.com", "")];
    let groups = group_by_domain(&bookmarks);
    assert_eq!(groups.len(), 2);
    assert_eq!(groups[0].0, "b.com");
    let names: Vec<&str> = groups[0].1.iter().map(|b| b.name.as_str()).collect();
    assert_eq!(names, vec!["1", "3"]);
    assert_eq!(groups[1].0, "a.com");
    assert_eq!(groups[1].1.len(), 1);
}

#[test]
fn group_by_root_domain_merges_subdomains() {
    let bookmarks = vec![
        bm("1", "www.reddit.com", ""),
        bm("2", "old.reddit.com", ""),
        bm("3", "example.co.uk", ""),
    ];
    let groups = group_by_root_domain(&bookmarks);
    assert_eq!(groups.len(), 2);
    assert_eq!(groups[0].0, "reddit.com");
    assert_eq!(groups[0].1.len(), 2);
    assert_eq!(groups[1].0, "example.co.uk");
}

#[test]
fn domain_stats_sorted_by_count_descending() {
    let bookmarks = vec![
        bm("1", "a.com", ""),
        bm("2", "b.com", ""),
        bm("3", "b.com", ""),
        bm("4", "c.com", ""),
        bm("5", "c.com", ""),
        bm("6", "d.com", ""),
    ];
    let stats = get_domain_stats(&bookmarks);
    let order: Vec<(&str, usize)> = stats.iter().map(|s| (s.domain.as_str(), s.count)).collect();
    assert_eq!(order, vec![("b.com", 2), ("c.com", 2), ("a.com", 1), ("d.com", 1)]);
    assert_eq!(stats[1].bookmarks, vec!["4".to_string(), "5".to_string()]);
    let shown: Vec<&str> = domains_with_min_count(&stats, 2).iter().map(|s| s.domain.as_str()).collect();
    assert_eq!(shown, vec!["b.com", "c.com"]);
    assert_eq!(domains_with_min_count(&stats, 3).len(), 0);
}

#[test]
fn top_level_folders_counted() {
    let bookmarks = vec![
        bm("1", "a.com", "Tech/Rust"),
        bm("2", "a.com", "News"),
        bm("3", "a.com", "Tech"),
        bm("4", "a.com", ""),
    ];
    let counts = top_level_folder_counts(&bookmarks);
    let got: Vec<(&str, usize)> = counts.iter().map(|c| (c.name.as_str(), c.count)).collect();
    assert_eq!(got, vec![("Tech", 2), ("News", 1), ("", 1)]);
}

#[test]
fn subfolder_counts_one_level_below_a_top_folder() {
    let bookmarks = vec![
        bm("1", "a.com", "Work/Projects/Rust"),
        bm("2", "a.com", "Work/Notes"),
        bm("3", "a.com", "Work/Projects"),
        bm("4", "a.com", "Work"),
        bm("5", "a.com", "Home/X"),
        bm("6", "a.com", "Workshop/Y"),
    ];
    let counts: Vec<(String, usize)> =
        subfolder_counts(&bookmarks, "Work").into_iter().map(|c| (c.name, c.count)).collect();
    assert_eq!(counts, vec![("Projects".to_string(), 2), ("Notes".to_string(), 1)]);
    assert!(subfolder_counts(&bookmarks, "Elsewhere").is_empty());
}

#[test]
fn domain_stats_cover_every_bookmark_once() {
    let bookmarks = vec![
        bm("1", "a.com", ""),
        bm("2", "b.com", ""),
        bm("3", "a.com", ""),
        bm("4", "c.org", ""),
    ];
    let stats = get_domain_stats(&bookmarks);
    let total: usize = stats.iter().map(|s| s.count).sum();
    assert_eq!(total, bookmarks.len());
    let mut domains: Vec<&str> = stats.iter().map(|s| s.domain.as_str()).collect();
    domains.sort();
    assert_eq!(domains, vec!["a.com", "b.com", "c.org"]);
    assert!(stats.iter().all(|s| s.count == s.bookmarks.len() && s.count > 0));
}

#[test]
fn root_domain_is_a_dotted_suffix_and_stable() {
    for d in ["www.reddit.com", "a.b.example.co.uk", "example.co.uk", "x.y", "localhost", "a.b.c.d.net", ""] {
        let r = extract_root_domain(d);
        assert_eq!(extract_root_domain(&r), r);
        assert!(d.ends_with(r.as_str()));
        assert!(r.len() == d.len() || d.as_bytes()[d.len() - r.len() - 1] == b'.');
    }
}
