//! Dead link classification.
//!
//! Classifies the outcome of checking a bookmark's URL as alive, dead
//! (4xx/5xx) or unreachable (network errors), decides which request to send
//! next while checking, and filters and counts checked bookmarks.
use vstd::prelude::*;
use crate::bookmark::{Bookmark, BookmarkView, CheckedBookmark, LinkStatus, bookmark_views};
use crate::text::concat_strs;

verus! {

broadcast use vstd::seq_lib::group_seq_properties;

/// Configuration for dead link checking.
#[derive(Debug, Clone)]
pub struct CheckConfig {
    /// Request timeout in seconds
    pub timeout_secs: u64,
    /// Number of concurrent requests
    pub concurrency: usize,
    /// Whether to follow redirects
    pub follow_redirects: bool,
    /// User agent string
    pub user_agent: String,
}

impl Default for CheckConfig {
    fn default() -> (r: Self)
        ensures
            r.timeout_secs == 5,
            r.concurrency == 10,
            r.follow_redirects,
            r.user_agent@ == "Mozilla/5.0 (Windows NT 10.0; Win64; x64) EdgeBookmarkChecker/1.0"@,
    {
        Self {
            timeout_secs: 5,
            concurrency: 10,
            follow_redirects: true,
            user_agent: String::from_str(
                "Mozilla/5.0 (Windows NT 10.0; Win64; x64) EdgeBookmarkChecker/1.0",
            ),
        }
    }
}

/// The most requests that may be in flight at once.
pub const MAX_CONCURRENCY: usize = 100;

/// The number of requests to keep in flight for a requested concurrency:
/// the request, capped at [`MAX_CONCURRENCY`].
pub fn effective_concurrency(requested: usize) -> (r: usize)
    ensures
        r == if requested > MAX_CONCURRENCY {
            MAX_CONCURRENCY
        } else {
            requested
        },
{
    if requested > MAX_CONCURRENCY {
        MAX_CONCURRENCY
    } else {
        requested
    }
}

/// The status that an HTTP status code stands for: alive below 400, dead
/// from 400 on.
pub open spec fn status_for_code(code: u16) -> LinkStatus {
    if code < 400 {
        LinkStatus::Alive
    } else {
        LinkStatus::Dead { status_code: code }
    }
}

/// Every error status (400 and above, client or server error) marks a link
/// dead with that code, and every other status (success, redirect,
/// informational) marks it alive.
pub proof fn law_status_classification(code: u16)
    ensures
        code >= 400 ==> status_for_code(code) == (LinkStatus::Dead { status_code: code }),
        code < 400 ==> status_for_code(code) == LinkStatus::Alive,
        status_for_code(code) is Alive || status_for_code(code) is Dead,
{
}

/// Classify an HTTP response status code.
pub fn status_from_code(code: u16) -> (r: LinkStatus)
    ensures
        r == status_for_code(code),
{
    if code < 400 {
        LinkStatus::Alive
    } else {
        LinkStatus::Dead { status_code: code }
    }
}

/// Where the check of one URL stands.
#[derive(Debug)]
pub enum ProbeState {
    /// Nothing done yet: the HTTP client is being built.
    Start,
    /// A HEAD request was sent.
    HeadSent,
    /// HEAD failed; a GET request was sent.
    GetSent,
}

/// What the last step of checking a URL gave.
#[derive(Debug)]
pub enum ProbeEvent {
    /// The HTTP client was built.
    ClientReady,
    /// Building the HTTP client failed, with this message.
    ClientFailed(String),
    /// The request was answered with this status code.
    Responded(u16),
    /// The request failed, with this message.
    RequestFailed(String),
}

/// What to do next while checking a URL.
#[derive(Debug)]
pub enum ProbeAction {
    /// Send a HEAD request.
    SendHead,
    /// Send a GET request.
    SendGet,
    /// Stop: the URL has this status.
    Finish(LinkStatus),
}

/// The events that can follow each state.
pub open spec fn event_fits(state: ProbeState, event: ProbeEvent) -> bool {
    match state {
        ProbeState::Start => event is ClientReady || event is ClientFailed,
        _ => event is Responded || event is RequestFailed,
    }
}

/// Whether `event` is one that can follow `state` (the condition under
/// which [`probe_step`] may be called).
pub fn event_expected(state: &ProbeState, event: &ProbeEvent) -> (r: bool)
    ensures
        r == event_fits(*state, *event),
{
    match state {
        ProbeState::Start => match event {
            ProbeEvent::ClientReady | ProbeEvent::ClientFailed(_) => true,
            _ => false,
        },
        _ => match event {
            ProbeEvent::Responded(_) | ProbeEvent::RequestFailed(_) => true,
            _ => false,
        },
    }
}

/// Decide the next step of checking a URL: with a client, try HEAD first
/// (it is lighter); if HEAD fails, fall back to GET; a response classifies
/// the URL by its status code; a failed GET, or a client that could not be
/// built, makes it unreachable with the failure's message.
pub fn probe_step(state: ProbeState, event: ProbeEvent) -> (r: (ProbeState, ProbeAction))
    requires
        event_fits(state, event),
    ensures
        match (state, event) {
            (ProbeState::Start, ProbeEvent::ClientReady) => r.0 is HeadSent && r.1 is SendHead,
            (ProbeState::Start, ProbeEvent::ClientFailed(msg)) => r.1 matches ProbeAction::Finish(
                LinkStatus::Unreachable { reason },
            ) && reason@ == "Failed to create client: "@ + msg@,
            (ProbeState::HeadSent, ProbeEvent::RequestFailed(_)) => r.0 is GetSent && r.1 is SendGet,
            (ProbeState::GetSent, ProbeEvent::RequestFailed(msg)) => r.1 matches ProbeAction::Finish(
                LinkStatus::Unreachable { reason },
            ) && reason@ == msg@,
            (_, ProbeEvent::Responded(code)) => r.1 == ProbeAction::Finish(status_for_code(code)),
            _ => false,
        },
{
    match (state, event) {
        (ProbeState::Start, ProbeEvent::ClientReady) => (ProbeState::HeadSent, ProbeAction::SendHead),
        (ProbeState::Start, ProbeEvent::ClientFailed(msg)) => {
            let reason = concat_strs("Failed to create client: ", msg.as_str());
            (ProbeState::Start, ProbeAction::Finish(LinkStatus::Unreachable { reason }))
        },
        (ProbeState::HeadSent, ProbeEvent::RequestFailed(_)) => (
            ProbeState::GetSent,
            ProbeAction::SendGet,
        ),
        (ProbeState::GetSent, ProbeEvent::RequestFailed(msg)) => (
            ProbeState::GetSent,
            ProbeAction::Finish(LinkStatus::Unreachable { reason: msg }),
        ),
        (s, ProbeEvent::Responded(code)) => (s, ProbeAction::Finish(status_from_code(code))),
        (s, _) => (s, ProbeAction::Finish(LinkStatus::Unknown)),
    }
}

/// Whether a status is dead or unreachable.
pub open spec fn is_bad(c: CheckedBookmark) -> bool {
    c.status is Dead || c.status is Unreachable
}

/// Whether a status is alive.
pub open spec fn is_alive(c: CheckedBookmark) -> bool {
    c.status is Alive
}

/// Whether a bookmark is kept when dead links are removed: alive or not
/// checked.
pub open spec fn is_kept(c: CheckedBookmark) -> bool {
    c.status is Alive || c.status is Unknown
}

/// The checked bookmarks themselves, from references to them.
pub open spec fn derefs(s: Seq<&CheckedBookmark>) -> Seq<CheckedBookmark> {
    s.map_values(|c: &CheckedBookmark| *c)
}

fn filter_status<'a>(checked: &'a [CheckedBookmark], bad: bool) -> (r: Vec<&'a CheckedBookmark>)
    ensures
        derefs(r@) == checked@.filter(
            if bad {
                |c: CheckedBookmark| is_bad(c)
            } else {
                |c: CheckedBookmark| is_alive(c)
            },
        ),
{
    let ghost p = if bad {
        |c: CheckedBookmark| is_bad(c)
    } else {
        |c: CheckedBookmark| is_alive(c)
    };
    let mut r: Vec<&'a CheckedBookmark> = Vec::new();
    let mut i: usize = 0;
    while i < checked.len()
        invariant
            p == (if bad {
                |c: CheckedBookmark| is_bad(c)
            } else {
                |c: CheckedBookmark| is_alive(c)
            }),
            i <= checked@.len(),
            derefs(r@) == checked@.take(i as int).filter(p),
        decreases checked@.len() - i,
    {
        let ghost before = derefs(r@);
        assert(checked@.take(i + 1) =~= checked@.take(i as int).push(checked@[i as int]));
        proof {
            checked@.take(i as int).lemma_filter_push(checked@[i as int], p);
        }
        let keep = match &checked[i].status {
            LinkStatus::Dead { .. } | LinkStatus::Unreachable { .. } => bad,
            LinkStatus::Alive => !bad,
            LinkStatus::Unknown => false,
        };
        if keep {
            r.push(&checked[i]);
            assert(derefs(r@) =~= before.push(checked@[i as int]));
        }
        i = i + 1;
    }
    assert(checked@.take(checked@.len() as int) =~= checked@);
    r
}

/// Filter to only dead (or unreachable) links.
pub fn filter_dead_links(checked: &[CheckedBookmark]) -> (r: Vec<&CheckedBookmark>)
    ensures
        derefs(r@) == checked@.filter(|c: CheckedBookmark| is_bad(c)),
{
    filter_status(checked, true)
}

/// Filter to only alive links.
pub fn filter_alive_links(checked: &[CheckedBookmark]) -> (r: Vec<&CheckedBookmark>)
    ensures
        derefs(r@) == checked@.filter(|c: CheckedBookmark| is_alive(c)),
{
    filter_status(checked, false)
}

/// The bookmarks of a sequence of checked bookmarks.
pub open spec fn bookmarks_of(s: Seq<CheckedBookmark>) -> Seq<BookmarkView> {
    s.map_values(|c: CheckedBookmark| c.bookmark@)
}

/// Remove dead links from a bookmark list: keep the bookmarks that are
/// alive or were not checked, in order.
pub fn remove_dead_bookmarks(checked: Vec<CheckedBookmark>) -> (r: Vec<Bookmark>)
    ensures
        bookmark_views(r@) == bookmarks_of(checked@.filter(|c: CheckedBookmark| is_kept(c))),
{
    let ghost p = |c: CheckedBookmark| is_kept(c);
    let mut r: Vec<Bookmark> = Vec::new();
    let mut i: usize = 0;
    while i < checked.len()
        invariant
            p == (|c: CheckedBookmark| is_kept(c)),
            i <= checked@.len(),
            bookmark_views(r@) == bookmarks_of(checked@.take(i as int).filter(p)),
        decreases checked@.len() - i,
    {
        let ghost before = bookmark_views(r@);
        assert(checked@.take(i + 1) =~= checked@.take(i as int).push(checked@[i as int]));
        proof {
            checked@.take(i as int).lemma_filter_push(checked@[i as int], p);
        }
        let keep = match &checked[i].status {
            LinkStatus::Alive | LinkStatus::Unknown => true,
            _ => false,
        };
        if keep {
            let b = checked[i].bookmark.copy();
            r.push(b);
            assert(bookmark_views(r@) =~= before.push(checked@[i as int].bookmark@));
            assert(bookmarks_of(checked@.take(i + 1).filter(p)) =~= bookmarks_of(
                checked@.take(i as int).filter(p),
            ).push(checked@[i as int].bookmark@));
        }
        i = i + 1;
    }
    assert(checked@.take(checked@.len() as int) =~= checked@);
    r
}

/// The number of checked bookmarks with a status of the given kind.
pub open spec fn count_where(s: Seq<CheckedBookmark>, p: spec_fn(CheckedBookmark) -> bool) -> int {
    s.filter(p).len() as int
}

/// Statistics about link checking results.
#[derive(Debug)]
pub struct LinkCheckStats {
    pub total: usize,
    pub alive: usize,
    pub dead: usize,
    pub unreachable: usize,
}

impl LinkCheckStats {
    /// Count the statuses of checked bookmarks.
    pub fn from_checked(checked: &[CheckedBookmark]) -> (r: Self)
        ensures
            r.total == checked@.len(),
            r.alive == count_where(checked@, |c: CheckedBookmark| c.status is Alive),
            r.dead == count_where(checked@, |c: CheckedBookmark| c.status is Dead),
            r.unreachable == count_where(checked@, |c: CheckedBookmark| c.status is Unreachable),
    {
        let ghost pa = |c: CheckedBookmark| c.status is Alive;
        let ghost pd = |c: CheckedBookmark| c.status is Dead;
        let ghost pu = |c: CheckedBookmark| c.status is Unreachable;
        let mut stats = LinkCheckStats { total: checked.len(), alive: 0, dead: 0, unreachable: 0 };
        let mut i: usize = 0;
        while i < checked.len()
            invariant
                pa == (|c: CheckedBookmark| c.status is Alive),
                pd == (|c: CheckedBookmark| c.status is Dead),
                pu == (|c: CheckedBookmark| c.status is Unreachable),
                stats.total == checked@.len(),
                i <= checked@.len(),
                stats.alive == checked@.take(i as int).filter(pa).len(),
                stats.dead == checked@.take(i as int).filter(pd).len(),
                stats.unreachable == checked@.take(i as int).filter(pu).len(),
                stats.alive + stats.dead + stats.unreachable <= i,
            decreases checked@.len() - i,
        {
            let ghost t = checked@.take(i as int);
            assert(checked@.take(i + 1) =~= t.push(checked@[i as int]));
            proof {
                t.lemma_filter_push(checked@[i as int], pa);
                t.lemma_filter_push(checked@[i as int], pd);
                t.lemma_filter_push(checked@[i as int], pu);
            }
            match &checked[i].status {
                LinkStatus::Alive => stats.alive = stats.alive + 1,
                LinkStatus::Dead { .. } => stats.dead = stats.dead + 1,
                LinkStatus::Unreachable { .. } => stats.unreachable = stats.unreachable + 1,
                LinkStatus::Unknown => {},
            }
            i = i + 1;
        }
        assert(checked@.take(checked@.len() as int) =~= checked@);
        stats
    }
}

/// Whether the dead links are listed after a check: when there are any,
/// and either only dead links were asked for or there are at most 50.
pub fn should_list_dead(dead_links: usize, only_dead: bool) -> (r: bool)
    ensures
        r == (dead_links > 0 && (only_dead || dead_links <= 50)),
{
    dead_links > 0 && (only_dead || dead_links <= 50)
}

} // verus!
