use edge_bookmarks_organizer::deadlinks::event_expected;
use edge_bookmarks_organizer::deadlinks::{
    effective_concurrency, filter_alive_links, filter_dead_links, probe_step,
    remove_dead_bookmarks, should_list_dead, status_from_code, CheckConfig, LinkCheckStats,
    ProbeAction, ProbeEvent, ProbeState,
};
use edge_bookmarks_organizer::{Bookmark, CheckedBookmark, LinkStatus};

fn checked(name: &str, status: LinkStatus) -> CheckedBookmark {
    CheckedBookmark {
        bookmark: Bookmark {
            id: name.to_string(),
            name: name.to_string(),
            url: format!("https://{}.example/", name),
            normalized_url: format!("https://{}.example/", name),
            domain: format!("{}.example", name),
            folder_path: String::new(),
            date_added: None,
            date_last_used: None,
            topic: None,
        },
        status,
    }
}

fn sample() -> Vec<CheckedBookmark> {
    vec![
        checked("a", LinkStatus::Alive),
        checked("d", LinkStatus::Dead { status_code: 404 }),
        checked("u", LinkStatus::Unreachable { reason: "timeout".to_string() }),
        checked("k", LinkStatus::Unknown),
        checked("b", LinkStatus::Alive),
    ]
}

#[test]
fn default_config() {
    let c = CheckConfig::default();
    assert_eq!(c.timeout_secs, 5);
    assert_eq!(c.concurrency, 10);
    assert!(c.follow_redirects);
    assert_eq!(c.user_agent, "Mozilla/5.0 (Windows NT 10.0; Win64; x64) EdgeBookmarkChecker/1.0");
}

#[test]
fn concurrency_is_bounded() {
    assert_eq!(effective_concurrency(0), 0);
    assert_eq!(effective_concurrency(10), 10);
    assert_eq!(effective_concurrency(100), 100);
    assert_eq!(effective_concurrency(500), 100);
}

#[test]
fn status_codes() {
    assert_eq!(status_from_code(200), LinkStatus::Alive);
    assert_eq!(status_from_code(301), LinkStatus::Alive);
    assert_eq!(status_from_code(399), LinkStatus::Alive);
    assert_eq!(status_from_code(400), LinkStatus::Dead { status_code: 400 });
    assert_eq!(status_from_code(503), LinkStatus::Dead { status_code: 503 });
    assert_eq!(LinkStatus::default(), LinkStatus::Unknown);
}

#[test]
fn probe_tries_head_then_get() {
    let (s, a) = probe_step(ProbeState::Start, ProbeEvent::ClientReady);
    assert!(matches!(s, ProbeState::HeadSent));
    assert!(matches!(a, ProbeAction::SendHead));
    let (s, a) = probe_step(s, ProbeEvent::RequestFailed("no HEAD".to_string()));
    assert!(matches!(s, ProbeState::GetSent));
    assert!(matches!(a, ProbeAction::SendGet));
    let (_, a) = probe_step(s, ProbeEvent::Responded(404));
    assert!(matches!(a, ProbeAction::Finish(LinkStatus::Dead { status_code: 404 })));
    let (_, a) = probe_step(ProbeState::HeadSent, ProbeEvent::Responded(204));
    assert!(matches!(a, ProbeAction::Finish(LinkStatus::Alive)));
    match probe_step(ProbeState::GetSent, ProbeEvent::RequestFailed("dns".to_string())).1 {
        ProbeAction::Finish(LinkStatus::Unreachable { reason }) => assert_eq!(reason, "dns"),
        other => panic!("unexpected {:?}", other),
    }
    match probe_step(ProbeState::Start, ProbeEvent::ClientFailed("tls".to_string())).1 {
        ProbeAction::Finish(LinkStatus::Unreachable { reason }) => {
            assert_eq!(reason, "Failed to create client: tls")
        }
        other => panic!("unexpected {:?}", other),
    }
}

#[test]
fn filters_and_stats() {
    let all = sample();
    let dead: Vec<&str> = filter_dead_links(&all).iter().map(|c| c.bookmark.name.as_str()).collect();
    assert_eq!(dead, vec!["d", "u"]);
    let alive: Vec<&str> = filter_alive_links(&all).iter().map(|c| c.bookmark.name.as_str()).collect();
    assert_eq!(alive, vec!["a", "b"]);
    let stats = LinkCheckStats::from_checked(&all);
    assert_eq!((stats.total, stats.alive, stats.dead, stats.unreachable), (5, 2, 1, 1));
    let kept: Vec<String> = remove_dead_bookmarks(all).into_iter().map(|b| b.name).collect();
    assert_eq!(kept, vec!["a", "k", "b"]);
    assert_eq!(kept.len(), stats.total - stats.dead - stats.unreachable);
}

#[test]
fn listing_dead_links() {
    assert!(!should_list_dead(0, true));
    assert!(should_list_dead(50, false));
    assert!(!should_list_dead(51, false));
    assert!(should_list_dead(51, true));
}

#[test]
fn expected_probe_events() {
    assert!(event_expected(&ProbeState::Start, &ProbeEvent::ClientReady));
    assert!(!event_expected(&ProbeState::Start, &ProbeEvent::Responded(200)));
    assert!(event_expected(&ProbeState::HeadSent, &ProbeEvent::RequestFailed("x".to_string())));
    assert!(!event_expected(&ProbeState::GetSent, &ProbeEvent::ClientReady));
}
