//! Bookmark tree flattening and URL normalisation.
//!
//! Converts the nested folder structure of Edge's bookmark file into a
//! flat list of bookmark entries, and derives from each URL the keys that
//! the rest of the library compares.
use vstd::prelude::*;
use crate::bookmark::{
    Bookmark, BookmarkView, BookmarksFile, NodeView, RawBookmarkNode, bookmark_views, node_view,
    nodes_view, opt_copy,
};
use crate::sorting::{sort_strings, sorted_strs};
use crate::text::{
    chars_of, concat_strs, is_char, join_range, join_with, spec_to_lowercase, split_by, split_char,
    str_eq, str_views, string_of_range, to_lowercase,
};

use crate::rebuilder::{decimal, u64_to_decimal};

verus! {

broadcast use vstd::seq_lib::group_seq_properties;

/// The components of a parsed URL that this library reads.
#[derive(Debug, Clone)]
pub struct UrlParts {
    pub scheme: String,
    pub host: Option<String>,
    pub port: Option<u16>,
    pub path: String,
    pub query: Option<String>,
}

/// The mathematical value of [`UrlParts`].
pub struct UrlPartsView {
    pub scheme: Seq<char>,
    pub host: Option<Seq<char>>,
    pub port: Option<u16>,
    pub path: Seq<char>,
    pub query: Option<Seq<char>>,
}

impl View for UrlParts {
    type V = UrlPartsView;

    open spec fn view(&self) -> UrlPartsView {
        UrlPartsView {
            scheme: self.scheme@,
            host: crate::bookmark::opt_view(self.host),
            port: self.port,
            path: self.path@,
            query: crate::bookmark::opt_view(self.query),
        }
    }
}

/// What `url::Url::parse` makes of a string, read through `scheme()`,
/// `host_str()`, `port()`, `path()` and `query()`; `None` where it refuses
/// the string. (`port()` is `None` for the default port of the scheme.)
pub uninterp spec fn spec_parse_url(input: Seq<char>) -> Option<UrlPartsView>;

/// Calls `url::Url::parse` (WHATWG URL parsing) and reads the scheme, host,
/// port, path and query of the result. The contract names the outcome
/// [`spec_parse_url`] of the input's characters; the parsing rules
/// themselves are not restated.
#[verifier::external_body]
fn parse_url(input: &str) -> (r: Option<UrlParts>)
    ensures
        match r {
            Some(p) => spec_parse_url(input@) == Some(p@),
            None => spec_parse_url(input@) is None,
        },
{
    match url::Url::parse(input) {
        Ok(u) => Some(
            UrlParts {
                scheme: u.scheme().to_string(),
                host: u.host_str().map(|h| h.to_string()),
                port: u.port(),
                path: u.path().to_string(),
                query: u.query().map(|q| q.to_string()),
            },
        ),
        Err(_) => None,
    }
}

/// A path without its trailing slash, unless the path is just "/".
pub open spec fn trim_trailing_slash(path: Seq<char>) -> Seq<char> {
    if path.len() > 1 && path.last() == '/' {
        path.drop_last()
    } else {
        path
    }
}

/// A query string with its `&`-separated parameters sorted.
pub open spec fn sorted_query(q: Seq<char>) -> Seq<char> {
    join_with(sorted_strs(split_by(q, is_char('&'))), '&')
}

/// The view of an optional parse result.
pub open spec fn parts_view(p: Option<UrlParts>) -> Option<UrlPartsView> {
    match p {
        Some(x) => Some(x@),
        None => None,
    }
}

/// The normalized form of the string `s`, given what URL parsing made of
/// it: for a URL that parsed, its scheme, `://`, its lowercased host, its
/// port where it is not the scheme's default (`:` and the port in
/// decimal), its path without a trailing slash and, where it has a query,
/// `?` and the query with its parameters sorted (user and fragment are
/// left out); for a string that did not parse, the string lowercased.
pub open spec fn normalized_from(s: Seq<char>, parsed: Option<UrlPartsView>) -> Seq<char> {
    match parsed {
        Some(p) => p.scheme + "://"@ + match p.host {
            Some(h) => spec_to_lowercase(h),
            None => Seq::empty(),
        } + port_part(p.port) + trim_trailing_slash(p.path) + match p.query {
            Some(q) => "?"@ + sorted_query(q),
            None => Seq::empty(),
        },
        None => spec_to_lowercase(s),
    }
}

/// The port as written in a URL: `:` and the port in decimal, or nothing.
pub open spec fn port_part(port: Option<u16>) -> Seq<char> {
    match port {
        Some(n) => ":"@ + decimal(n as nat),
        None => Seq::empty(),
    }
}

/// The normalized form of a URL ([`normalized_from`] its parse).
pub open spec fn spec_normalize_url(s: Seq<char>) -> Seq<char> {
    normalized_from(s, spec_parse_url(s))
}

/// The domain of a URL, given what URL parsing made of it: its host
/// lowercased, the lowercased word `unknown` for a URL without a host, and
/// `unknown` for a string that did not parse.
pub open spec fn domain_from(parsed: Option<UrlPartsView>) -> Seq<char> {
    match parsed {
        Some(p) => match p.host {
            Some(h) => spec_to_lowercase(h),
            None => spec_to_lowercase("unknown"@),
        },
        None => "unknown"@,
    }
}

/// The domain of a URL ([`domain_from`] its parse).
pub open spec fn spec_extract_domain(s: Seq<char>) -> Seq<char> {
    domain_from(spec_parse_url(s))
}

/// What normalization keeps of a parsed URL: the scheme, `://`, the host
/// lowercased, the port where it is not the default, and the path as it is
/// (case kept) without a trailing slash; then, where there is a query, `?`
/// and the query's `&`-separated parameters, each character for character
/// and each as often as in the query, only reordered. Nothing else is
/// added; the query's and path's case are never changed.
pub proof fn law_normalized_parts(s: Seq<char>, p: UrlPartsView)
    ensures
        ({
            let head = p.scheme + "://"@ + match p.host {
                Some(h) => spec_to_lowercase(h),
                None => Seq::empty(),
            } + port_part(p.port) + if p.path.len() > 1 && p.path.last() == '/' {
                p.path.drop_last()
            } else {
                p.path
            };
            let r = normalized_from(s, Some(p));
            &&& r.len() >= head.len()
            &&& r.take(head.len() as int) == head
            &&& p.query is None ==> r == head
            &&& p.query is Some ==> {
                &&& r.len() > head.len()
                &&& r[head.len() as int] == '?'
                &&& split_by(r.skip(head.len() as int + 1), is_char('&')).to_multiset() == split_by(
                    p.query->0,
                    is_char('&'),
                ).to_multiset()
            }
        }),
{
    reveal_strlit("?");
    let head = p.scheme + "://"@ + match p.host {
        Some(h) => spec_to_lowercase(h),
        None => Seq::empty(),
    } + port_part(p.port) + if p.path.len() > 1 && p.path.last() == '/' {
        p.path.drop_last()
    } else {
        p.path
    };
    let r = normalized_from(s, Some(p));
    match p.query {
        None => {
            assert(r =~= head);
            assert(r.take(head.len() as int) =~= head);
        },
        Some(q) => {
            let sq = sorted_query(q);
            assert(r =~= head + ("?"@ + sq));
            assert(r.take(head.len() as int) =~= head);
            assert(r.skip(head.len() as int + 1) =~= sq);
            let parts = split_by(q, is_char('&'));
            let sorted = sorted_strs(parts);
            crate::text::lemma_split_nonempty(q, is_char('&'));
            crate::organizer::lemma_split_pieces(q, '&');
            crate::sorting::lemma_sorted_len(parts);
            crate::sorting::lemma_sorted_distinct(parts);
            crate::sorting::lemma_sorted_multiset(parts);
            assert forall|i: int| 0 <= i < sorted.len() implies !(#[trigger] sorted[i]).contains('&') by {
                assert(sorted.contains(sorted[i]));
                assert(parts.contains(sorted[i]));
                let j = choose|j: int| 0 <= j < parts.len() && parts[j] == sorted[i];
            }
            crate::organizer::lemma_split_join(sorted, '&');
        },
    }
}

fn trim_path(path: &str) -> (r: String)
    ensures
        r@ == trim_trailing_slash(path@),
{
    let v = chars_of(path);
    if v.len() > 1 && v[v.len() - 1] == '/' {
        string_of_range(&v, 0, v.len() - 1)
    } else {
        assert(v@.subrange(0, v@.len() as int) =~= v@);
        string_of_range(&v, 0, v.len())
    }
}

fn sort_query(q: &str) -> (r: String)
    ensures
        r@ == sorted_query(q@),
{
    let params = split_char(q, '&');
    let sorted = sort_strings(params);
    proof {
        crate::sorting::lemma_sorted_len(str_views(params@));
    }
    let r = join_range(&sorted, 0, sorted.len(), '&');
    assert(str_views(sorted@).subrange(0, sorted@.len() as int) =~= str_views(sorted@));
    r
}

/// Normalize the string `url_str` from what URL parsing made of it.
pub fn normalize_parsed(url_str: &str, parsed: &Option<UrlParts>) -> (r: String)
    ensures
        r@ == normalized_from(url_str@, parts_view(*parsed)),
{
    match parsed {
        Some(parts) => {
            let host = match &parts.host {
                Some(h) => to_lowercase(h.as_str()),
                None => String::new(),
            };
            let path = trim_path(parts.path.as_str());
            let mut out = concat_strs(parts.scheme.as_str(), "://");
            out.append(host.as_str());
            if let Some(n) = parts.port {
                out.append(":");
                let ds = u64_to_decimal(n as u64);
                out.append(ds.as_str());
            }
            out.append(path.as_str());
            match &parts.query {
                Some(q) => {
                    out.append("?");
                    let sq = sort_query(q.as_str());
                    out.append(sq.as_str());
                    assert(out@ =~= normalized_from(url_str@, parts_view(*parsed)));
                },
                None => {
                    assert(out@ =~= normalized_from(url_str@, parts_view(*parsed)));
                },
            }
            out
        },
        None => to_lowercase(url_str),
    }
}

/// Normalize a URL for duplicate detection.
///
/// - Converts the host to lowercase
/// - Removes the trailing slash from the path
/// - Removes default ports (80 for http, 443 for https), keeps others
/// - Sorts query parameters for consistency
pub fn normalize_url(url_str: &str) -> (r: String)
    ensures
        r@ == spec_normalize_url(url_str@),
{
    let parsed = parse_url(url_str);
    assert(parts_view(parsed) == spec_parse_url(url_str@));
    normalize_parsed(url_str, &parsed)
}

/// The domain of a URL from what URL parsing made of it.
pub fn domain_of_parsed(parsed: &Option<UrlParts>) -> (r: String)
    ensures
        r@ == domain_from(parts_view(*parsed)),
{
    match parsed {
        Some(parts) => match &parts.host {
            Some(h) => to_lowercase(h.as_str()),
            None => to_lowercase("unknown"),
        },
        None => String::from_str("unknown"),
    }
}

/// Extract the domain from a URL.
pub fn extract_domain(url_str: &str) -> (r: String)
    ensures
        r@ == spec_extract_domain(url_str@),
{
    let parsed = parse_url(url_str);
    assert(parts_view(parsed) == spec_parse_url(url_str@));
    domain_of_parsed(&parsed)
}

/// The folder path of the children of folder `name` inside `path`.
pub open spec fn child_path(path: Seq<char>, name: Seq<char>) -> Seq<char> {
    if path.len() == 0 {
        name
    } else {
        path + "/"@ + name
    }
}

/// The bookmark that a URL node with URL `url` in folder `path` stands for.
pub open spec fn url_bookmark(n: NodeView, url: Seq<char>, path: Seq<char>) -> BookmarkView {
    BookmarkView {
        id: n.id,
        name: n.name,
        url: url,
        normalized_url: spec_normalize_url(url),
        domain: spec_extract_domain(url),
        folder_path: path,
        date_added: n.date_added,
        date_last_used: n.date_last_used,
        topic: None,
    }
}

/// The bookmarks of a node inside folder `path`, in document order: a URL
/// node with a URL gives its bookmark, a folder with children gives the
/// bookmarks of its children inside `child_path(path, name)`, anything
/// else gives nothing.
pub open spec fn flatten_spec(n: NodeView, path: Seq<char>) -> Seq<BookmarkView>
    decreases n,
{
    if n.node_type == "url"@ {
        match n.url {
            Some(u) => seq![url_bookmark(n, u, path)],
            None => Seq::empty(),
        }
    } else if n.node_type == "folder"@ {
        match n.children {
            Some(cs) => flatten_list_spec(cs, child_path(path, n.name)),
            None => Seq::empty(),
        }
    } else {
        Seq::empty()
    }
}

/// The bookmarks of a list of sibling nodes inside folder `path`.
pub open spec fn flatten_list_spec(cs: Seq<NodeView>, path: Seq<char>) -> Seq<BookmarkView>
    decreases cs,
{
    if cs.len() == 0 {
        Seq::empty()
    } else {
        flatten_list_spec(cs.drop_last(), path) + flatten_spec(cs.last(), path)
    }
}

/// The bookmarks of a root node: the bookmarks of its children at the top
/// level when it is a folder (its own name is not part of any path), its
/// own bookmark when it is a URL.
pub open spec fn flatten_root_spec(n: NodeView) -> Seq<BookmarkView> {
    if n.node_type == "folder"@ {
        match n.children {
            Some(cs) => flatten_list_spec(cs, Seq::empty()),
            None => Seq::empty(),
        }
    } else if n.node_type == "url"@ {
        flatten_spec(n, Seq::empty())
    } else {
        Seq::empty()
    }
}

/// All bookmarks of a file: those of the bookmark bar, then of "other
/// bookmarks", then of the synced root where there is one.
pub open spec fn parse_spec(
    bar: NodeView,
    other: NodeView,
    synced: Option<NodeView>,
) -> Seq<BookmarkView> {
    flatten_root_spec(bar) + flatten_root_spec(other) + match synced {
        Some(s) => flatten_root_spec(s),
        None => Seq::empty(),
    }
}

/// The view of each node in a sequence is at its index.
pub proof fn lemma_nodes_view(s: Seq<RawBookmarkNode>)
    ensures
        nodes_view(s).len() == s.len(),
        forall|i: int| 0 <= i < s.len() ==> #[trigger] nodes_view(s)[i] == node_view(s[i]),
    decreases s.len(),
{
    if s.len() > 0 {
        lemma_nodes_view(s.drop_last());
    }
}

/// Flatten the children `cs` of a folder into `bookmarks`, inside `path`.
fn flatten_children(
    cs: &Vec<RawBookmarkNode>,
    path: &str,
    bookmarks: &mut Vec<Bookmark>,
    Ghost(parent): Ghost<RawBookmarkNode>,
)
    requires
        parent.children == Some(*cs),
    ensures
        bookmark_views(final(bookmarks)@) == bookmark_views(old(bookmarks)@) + flatten_list_spec(
            nodes_view(cs@),
            path@,
        ),
    decreases parent, 0nat,
{
    proof {
        lemma_nodes_view(cs@);
    }
    let mut i: usize = 0;
    let ghost start = bookmark_views(bookmarks@);
    while i < cs.len()
        invariant
            parent.children == Some(*cs),
            nodes_view(cs@).len() == cs@.len(),
            forall|k: int| 0 <= k < cs@.len() ==> #[trigger] nodes_view(cs@)[k] == node_view(cs@[k]),
            i <= cs@.len(),
            bookmark_views(bookmarks@) == start + flatten_list_spec(
                nodes_view(cs@).take(i as int),
                path@,
            ),
        decreases cs@.len() - i,
    {
        assert(nodes_view(cs@).take(i + 1).drop_last() =~= nodes_view(cs@).take(i as int));
        proof {
            let ghost ch = parent.children;
            assert(decreases_to!(parent => ch));
            assert(decreases_to!(ch => ch->0));
            assert(decreases_to!(*cs => cs@));
            assert(decreases_to!(cs@ => cs@[i as int]));
            assert(decreases_to!(parent => cs@[i as int]));
        }
        flatten_node(&cs[i], path, bookmarks);
        i = i + 1;
    }
    assert(nodes_view(cs@).take(cs@.len() as int) =~= nodes_view(cs@));
}

/// Recursively flatten a bookmark node tree into a list of bookmarks.
///
/// This walks through the nested folder structure and extracts all URL
/// bookmarks, recording their full folder path for later reconstruction.
fn flatten_node(node: &RawBookmarkNode, current_path: &str, bookmarks: &mut Vec<Bookmark>)
    ensures
        bookmark_views(final(bookmarks)@) == bookmark_views(old(bookmarks)@) + flatten_spec(
            node@,
            current_path@,
        ),
    decreases *node, 1nat,
{
    let ghost old_views = bookmark_views(bookmarks@);
    if str_eq(node.node_type.as_str(), "url") {
        match &node.url {
            Some(url) => {
                let bookmark = Bookmark {
                    id: node.id.clone(),
                    name: node.name.clone(),
                    url: url.clone(),
                    normalized_url: normalize_url(url.as_str()),
                    domain: extract_domain(url.as_str()),
                    folder_path: String::from_str(current_path),
                    date_added: opt_copy(&node.date_added),
                    date_last_used: opt_copy(&node.date_last_used),
                    topic: None,
                };
                bookmarks.push(bookmark);
                assert(bookmark_views(bookmarks@) =~= old_views + flatten_spec(node@, current_path@));
            },
            None => {
                assert(bookmark_views(bookmarks@) =~= old_views + flatten_spec(node@, current_path@));
            },
        }
    } else if str_eq(node.node_type.as_str(), "folder") {
        match &node.children {
            Some(children) => {
                let new_path = if current_path.is_empty() {
                    node.name.clone()
                } else {
                    let p = concat_strs(current_path, "/");
                    concat_strs(p.as_str(), node.name.as_str())
                };
                flatten_children(children, new_path.as_str(), bookmarks, Ghost(*node));
            },
            None => {
                assert(bookmark_views(bookmarks@) =~= old_views + flatten_spec(node@, current_path@));
            },
        }
    } else {
        assert(bookmark_views(bookmarks@) =~= old_views + flatten_spec(node@, current_path@));
    }
}

/// Flatten a root node while skipping the root wrapper folder name.
///
/// Edge stores bookmarks under wrapper roots like `bookmark_bar` / `other`.
/// Only user-facing folder paths are wanted, so flattening starts from the
/// root's children.
fn flatten_root(node: &RawBookmarkNode, bookmarks: &mut Vec<Bookmark>)
    ensures
        bookmark_views(final(bookmarks)@) == bookmark_views(old(bookmarks)@) + flatten_root_spec(
            node@,
        ),
{
    let ghost old_views = bookmark_views(bookmarks@);
    proof {
        reveal_strlit("");
        assert(""@ =~= Seq::<char>::empty());
    }
    if str_eq(node.node_type.as_str(), "folder") {
        match &node.children {
            Some(children) => {
                flatten_children(children, "", bookmarks, Ghost(*node));
            },
            None => {
                assert(bookmark_views(bookmarks@) =~= old_views + flatten_root_spec(node@));
            },
        }
    } else if str_eq(node.node_type.as_str(), "url") {
        flatten_node(node, "", bookmarks);
    } else {
        assert(bookmark_views(bookmarks@) =~= old_views + flatten_root_spec(node@));
    }
}

/// Parse a bookmarks file and return a flat list of all bookmarks.
pub fn parse_bookmarks(bookmarks_file: &BookmarksFile) -> (r: Vec<Bookmark>)
    ensures
        bookmark_views(r@) == parse_spec(
            bookmarks_file.roots.bookmark_bar@,
            bookmarks_file.roots.other@,
            match bookmarks_file.roots.synced {
                Some(s) => Some(s@),
                None => None,
            },
        ),
{
    let mut bookmarks: Vec<Bookmark> = Vec::new();
    assert(bookmark_views(bookmarks@) =~= Seq::empty());
    flatten_root(&bookmarks_file.roots.bookmark_bar, &mut bookmarks);
    flatten_root(&bookmarks_file.roots.other, &mut bookmarks);
    match &bookmarks_file.roots.synced {
        Some(synced) => {
            flatten_root(synced, &mut bookmarks);
        },
        None => {
            assert(bookmark_views(bookmarks@) =~= bookmark_views(bookmarks@) + Seq::empty());
        },
    }
    bookmarks
}

} // verus!
