//! Core bookmark data structures.
//!
//! Defines the internal representation of bookmarks and the tree of raw
//! nodes that Microsoft Edge stores in its `Bookmarks` JSON file, together
//! with their mathematical views.
use vstd::prelude::*;

verus! {

/// The view of an optional string.
pub open spec fn opt_view(o: Option<String>) -> Option<Seq<char>> {
    match o {
        Some(s) => Some(s@),
        None => None,
    }
}

/// Copies an optional string.
pub fn opt_copy(o: &Option<String>) -> (r: Option<String>)
    ensures
        opt_view(r) == opt_view(*o),
{
    match o {
        Some(s) => Some(s.clone()),
        None => None,
    }
}

/// A flattened bookmark entry extracted from Edge's nested structure.
/// This is the library's internal working representation.
#[derive(Debug, Clone)]
pub struct Bookmark {
    /// Unique identifier from Edge
    pub id: String,
    /// Display name of the bookmark
    pub name: String,
    /// The bookmark URL
    pub url: String,
    /// Normalized URL for comparison (lowercase host, no trailing slash)
    pub normalized_url: String,
    /// Extracted domain from the URL
    pub domain: String,
    /// Full folder path (e.g., "Bookmarks Bar/Tech/Rust")
    pub folder_path: String,
    /// Creation timestamp (microseconds since Windows epoch)
    pub date_added: Option<String>,
    /// Last use timestamp
    pub date_last_used: Option<String>,
    /// Optional topic category (for topic-based grouping)
    pub topic: Option<String>,
}

/// The mathematical value of a [`Bookmark`]: every string as its characters.
pub struct BookmarkView {
    pub id: Seq<char>,
    pub name: Seq<char>,
    pub url: Seq<char>,
    pub normalized_url: Seq<char>,
    pub domain: Seq<char>,
    pub folder_path: Seq<char>,
    pub date_added: Option<Seq<char>>,
    pub date_last_used: Option<Seq<char>>,
    pub topic: Option<Seq<char>>,
}

impl View for Bookmark {
    type V = BookmarkView;

    open spec fn view(&self) -> BookmarkView {
        BookmarkView {
            id: self.id@,
            name: self.name@,
            url: self.url@,
            normalized_url: self.normalized_url@,
            domain: self.domain@,
            folder_path: self.folder_path@,
            date_added: opt_view(self.date_added),
            date_last_used: opt_view(self.date_last_used),
            topic: opt_view(self.topic),
        }
    }
}

/// The views of a sequence of bookmarks.
pub open spec fn bookmark_views(s: Seq<Bookmark>) -> Seq<BookmarkView> {
    s.map_values(|b: Bookmark| b@)
}

/// The views of a sequence of borrowed bookmarks.
pub open spec fn ref_views(s: Seq<&Bookmark>) -> Seq<BookmarkView> {
    s.map_values(|b: &Bookmark| b@)
}

impl Bookmark {
    /// A copy of this bookmark with equal fields.
    pub fn copy(&self) -> (r: Bookmark)
        ensures
            r@ == self@,
    {
        Bookmark {
            id: self.id.clone(),
            name: self.name.clone(),
            url: self.url.clone(),
            normalized_url: self.normalized_url.clone(),
            domain: self.domain.clone(),
            folder_path: self.folder_path.clone(),
            date_added: opt_copy(&self.date_added),
            date_last_used: opt_copy(&self.date_last_used),
            topic: opt_copy(&self.topic),
        }
    }
}

/// A raw bookmark node as stored in Edge's JSON file: a folder or a URL.
///
/// `extra` keeps the fields of the node that this library does not
/// interpret, each as its name and its JSON text, so that they survive a
/// rewrite of the file.
#[derive(Debug)]
pub struct RawBookmarkNode {
    pub id: String,
    pub name: String,
    pub node_type: String,
    pub url: Option<String>,
    pub children: Option<Vec<RawBookmarkNode>>,
    pub date_added: Option<String>,
    pub date_last_used: Option<String>,
    pub extra: Vec<(String, String)>,
}

/// The mathematical value of a [`RawBookmarkNode`].
pub struct NodeView {
    pub id: Seq<char>,
    pub name: Seq<char>,
    pub node_type: Seq<char>,
    pub url: Option<Seq<char>>,
    pub children: Option<Seq<NodeView>>,
    pub date_added: Option<Seq<char>>,
    pub date_last_used: Option<Seq<char>>,
    pub extra: Seq<(Seq<char>, Seq<char>)>,
}

/// The view of a list of extra fields.
pub open spec fn extra_view(e: Seq<(String, String)>) -> Seq<(Seq<char>, Seq<char>)> {
    e.map_values(|p: (String, String)| (p.0@, p.1@))
}

/// The view of a node, following its children.
pub open spec fn node_view(n: RawBookmarkNode) -> NodeView
    decreases n,
{
    NodeView {
        id: n.id@,
        name: n.name@,
        node_type: n.node_type@,
        url: opt_view(n.url),
        children: match n.children {
            Some(v) => Some(nodes_view(v@)),
            None => None,
        },
        date_added: opt_view(n.date_added),
        date_last_used: opt_view(n.date_last_used),
        extra: extra_view(n.extra@),
    }
}

/// The views of a sequence of nodes.
pub open spec fn nodes_view(s: Seq<RawBookmarkNode>) -> Seq<NodeView>
    decreases s,
{
    if s.len() == 0 {
        Seq::empty()
    } else {
        nodes_view(s.drop_last()).push(node_view(s.last()))
    }
}

impl View for RawBookmarkNode {
    type V = NodeView;

    open spec fn view(&self) -> NodeView {
        node_view(*self)
    }
}

/// Root structure of Edge's Bookmarks JSON file.
///
/// `extra` keeps the root-level fields that this library does not
/// interpret, each as its name and its JSON text.
#[derive(Debug)]
pub struct BookmarksFile {
    pub checksum: String,
    pub roots: BookmarkRoots,
    pub version: i32,
    pub extra: Vec<(String, String)>,
}

/// The main bookmark roots (bookmark bar, other bookmarks, synced).
#[derive(Debug)]
pub struct BookmarkRoots {
    pub bookmark_bar: RawBookmarkNode,
    pub other: RawBookmarkNode,
    pub synced: Option<RawBookmarkNode>,
    pub extra: Vec<(String, String)>,
}

/// Status of a bookmark after dead link checking.
#[derive(Debug, Clone, PartialEq, Eq)]
pub enum LinkStatus {
    /// Link is reachable (2xx or 3xx status)
    Alive,
    /// Link returned an error status (4xx or 5xx)
    Dead { status_code: u16 },
    /// Connection failed (timeout, DNS error, etc.)
    Unreachable { reason: String },
    /// Not yet checked
    Unknown,
}

impl Default for LinkStatus {
    fn default() -> (r: LinkStatus)
        ensures
            r is Unknown,
    {
        LinkStatus::Unknown
    }
}

/// A bookmark with its link status after checking.
#[derive(Debug, Clone)]
pub struct CheckedBookmark {
    pub bookmark: Bookmark,
    pub status: LinkStatus,
}

} // verus!
