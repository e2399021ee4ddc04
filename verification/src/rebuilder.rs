//! Bookmark structure rebuilding.
//!
//! Reconstructs Edge's nested bookmark structure from the flat bookmark
//! list, keeping the folder hierarchy or reorganizing by domain, root
//! domain or topic.
use vstd::prelude::*;
use crate::bookmark::{
    Bookmark, BookmarkRoots, BookmarkView, BookmarksFile, NodeView, RawBookmarkNode,
    bookmark_views, extra_view, node_view, nodes_view, opt_copy, ref_views,
};
use crate::grouping::{distinct_keys, group_of, keys_of, select_by_key};
use crate::organizer::{domain_key, extract_root_domain, root_domain_key};
use crate::embeddings::topic_key;
use crate::duplicates::copy_refs;
use crate::parser::child_path;
use crate::sorting::{lemma_sorted_len, sort_strings, sorted_strs};
use crate::text::{chars_of, push_char, str_views, string_of_range};
use crate::sorting::lemma_sorted_distinct;

verus! {

broadcast use vstd::seq_lib::group_seq_properties;

/// Strategy for organizing bookmarks when rebuilding.
#[derive(Debug, Clone, Copy)]
pub enum OrganizeStrategy {
    /// Keep original folder structure
    PreserveOriginal,
    /// Group by domain (creates domain-named folders)
    ByDomain,
    /// Group by root domain (simplifies subdomains)
    ByRootDomain,
    /// Group by topic (requires topic field to be populated)
    ByTopic,
}

/// The decimal digit for `d < 10`.
pub open spec fn digit_char(d: nat) -> char {
    if d == 0 {
        '0'
    } else if d == 1 {
        '1'
    } else if d == 2 {
        '2'
    } else if d == 3 {
        '3'
    } else if d == 4 {
        '4'
    } else if d == 5 {
        '5'
    } else if d == 6 {
        '6'
    } else if d == 7 {
        '7'
    } else if d == 8 {
        '8'
    } else {
        '9'
    }
}

/// The decimal representation of a natural number, without leading zeros.
pub open spec fn decimal(n: nat) -> Seq<char>
    decreases n,
{
    if n < 10 {
        seq![digit_char(n)]
    } else {
        decimal(n / 10).push(digit_char(n % 10))
    }
}

fn digit(d: u64) -> (c: char)
    requires
        d < 10,
    ensures
        c == digit_char(d as nat),
{
    if d == 0 {
        '0'
    } else if d == 1 {
        '1'
    } else if d == 2 {
        '2'
    } else if d == 3 {
        '3'
    } else if d == 4 {
        '4'
    } else if d == 5 {
        '5'
    } else if d == 6 {
        '6'
    } else if d == 7 {
        '7'
    } else if d == 8 {
        '8'
    } else {
        '9'
    }
}

/// The decimal representation of `n` (`n.to_string()`).
pub fn u64_to_decimal(n: u64) -> (r: String)
    ensures
        r@ == decimal(n as nat),
    decreases n,
{
    if n < 10 {
        let mut s = String::new();
        push_char(&mut s, digit(n));
        assert(s@ =~= decimal(n as nat));
        s
    } else {
        let mut s = u64_to_decimal(n / 10);
        push_char(&mut s, digit(n % 10));
        s
    }
}

/// The number of distinct 64-bit identifiers.
pub open spec fn id_modulus() -> int {
    0x1_0000_0000_0000_0000
}

/// The identifier issued for the `k`-th node: `k` in decimal, counted in
/// 64 bits as the generator's `u64` counter wraps.
pub open spec fn id_of(k: int) -> Seq<char> {
    decimal((k % id_modulus()) as nat)
}

/// ID generator for new nodes.
pub struct IdGenerator {
    next_id: u64,
}

impl IdGenerator {
    /// The identifier that the next call of `next` issues, as a number.
    pub closed spec fn counter(&self) -> int {
        self.next_id as int
    }

    pub fn new(start: u64) -> (r: Self)
        ensures
            r.counter() == start,
    {
        Self { next_id: start }
    }

    /// Issue the next identifier and advance the counter (wrapping at
    /// `u64::MAX`).
    pub fn next(&mut self) -> (r: String)
        ensures
            r@ == id_of(old(self).counter()),
            final(self).counter() == (old(self).counter() + 1) % id_modulus(),
    {
        let id = self.next_id;
        self.next_id = if self.next_id == u64::MAX {
            0
        } else {
            self.next_id + 1
        };
        assert((id as int) % id_modulus() == id as int);
        u64_to_decimal(id)
    }
}

/// The URL node built for a bookmark, with identifier `id`.
pub open spec fn url_node_spec(b: BookmarkView, id: Seq<char>) -> NodeView {
    NodeView {
        id: id,
        name: b.name,
        node_type: "url"@,
        url: Some(b.url),
        children: None,
        date_added: b.date_added,
        date_last_used: b.date_last_used,
        extra: Seq::empty(),
    }
}

/// The folder node built with a name, an identifier and children.
pub open spec fn folder_node_spec(name: Seq<char>, id: Seq<char>, children: Seq<NodeView>) -> NodeView {
    NodeView {
        id: id,
        name: name,
        node_type: "folder"@,
        url: None,
        children: Some(children),
        date_added: None,
        date_last_used: None,
        extra: Seq::empty(),
    }
}

/// Build a raw bookmark node for a single URL bookmark.
pub fn build_url_node(bookmark: &Bookmark, id: &str) -> (r: RawBookmarkNode)
    ensures
        r@ == url_node_spec(bookmark@, id@),
{
    let r = RawBookmarkNode {
        id: String::from_str(id),
        name: bookmark.name.clone(),
        node_type: String::from_str("url"),
        url: Some(bookmark.url.clone()),
        children: None,
        date_added: opt_copy(&bookmark.date_added),
        date_last_used: opt_copy(&bookmark.date_last_used),
        extra: Vec::new(),
    };
    assert(extra_view(r.extra@) =~= Seq::empty());
    r
}

/// Build a folder node with children.
pub fn build_folder_node(name: &str, id: &str, children: Vec<RawBookmarkNode>) -> (r: RawBookmarkNode)
    ensures
        r@ == folder_node_spec(name@, id@, nodes_view(children@)),
{
    let r = RawBookmarkNode {
        id: String::from_str(id),
        name: String::from_str(name),
        node_type: String::from_str("folder"),
        url: None,
        children: Some(children),
        date_added: None,
        date_last_used: None,
        extra: Vec::new(),
    };
    assert(extra_view(r.extra@) =~= Seq::empty());
    r
}

/// The URL nodes of the bookmarks `g`, the `i`-th with identifier
/// `start + i`.
pub open spec fn url_nodes(g: Seq<BookmarkView>, start: int) -> Seq<NodeView> {
    Seq::new(g.len(), |i: int| url_node_spec(g[i], id_of(start + i)))
}

/// Counters that agree modulo 2^64 stay in agreement when advanced alike.
proof fn lemma_counter_shift(c: int, s: int, k: int)
    requires
        c == s % id_modulus(),
    ensures
        (c + k) % id_modulus() == (s + k) % id_modulus(),
{
    vstd::arithmetic::div_mod::lemma_add_mod_noop(s, k, id_modulus());
    vstd::arithmetic::div_mod::lemma_add_mod_noop(c, k, id_modulus());
    vstd::arithmetic::div_mod::lemma_mod_twice(s, id_modulus());
}

/// Views of nodes pushed one at a time.
proof fn lemma_nodes_view_push(s: Seq<RawBookmarkNode>, x: RawBookmarkNode)
    ensures
        nodes_view(s.push(x)) == nodes_view(s).push(node_view(x)),
{
    assert(s.push(x).drop_last() =~= s);
}

/// Append to `nodes` one URL node per bookmark of `g`, identifiers taken
/// in turn from `id_gen`, whose counter stands for `start`.
fn push_url_nodes(
    g: &Vec<&Bookmark>,
    nodes: &mut Vec<RawBookmarkNode>,
    id_gen: &mut IdGenerator,
    Ghost(start): Ghost<int>,
)
    requires
        old(id_gen).counter() == start % id_modulus(),
    ensures
        nodes_view(final(nodes)@) == nodes_view(old(nodes)@) + url_nodes(ref_views(g@), start),
        final(id_gen).counter() == (start + g@.len()) % id_modulus(),
{
    let ghost before = nodes_view(nodes@);
    let mut i: usize = 0;
    while i < g.len()
        invariant
            i <= g@.len(),
            nodes_view(nodes@) == before + url_nodes(ref_views(g@).take(i as int), start),
            id_gen.counter() == (start + i) % id_modulus(),
        decreases g@.len() - i,
    {
        let ghost c = id_gen.counter();
        let id = id_gen.next();
        let node = build_url_node(g[i], id.as_str());
        proof {
            lemma_nodes_view_push(nodes@, node);
            vstd::arithmetic::div_mod::lemma_mod_twice(start + i, id_modulus());
            lemma_counter_shift(c, start + i, 1);
        }
        nodes.push(node);
        assert(nodes_view(nodes@) =~= before + url_nodes(ref_views(g@).take(i + 1), start));
        i = i + 1;
    }
    assert(ref_views(g@).take(g@.len() as int) =~= ref_views(g@));
}

/// The next identifier after the folders for the keys `ks`, numbered from
/// `start`: each folder's URL nodes, then the folder.
pub open spec fn keyed_end(
    bms: Seq<BookmarkView>,
    key: spec_fn(BookmarkView) -> Seq<char>,
    ks: Seq<Seq<char>>,
    start: int,
) -> int
    decreases ks.len(),
{
    if ks.len() == 0 {
        start
    } else {
        keyed_end(bms, key, ks.drop_last(), start) + group_of(bms, key, ks.last()).len() + 1
    }
}

/// The folders for the keys `ks`, in order, numbered from `start`: each is
/// named after its key and holds the URL nodes of the bookmarks with that
/// key in input order, numbered first, and is numbered after them.
pub open spec fn keyed_folders(
    bms: Seq<BookmarkView>,
    key: spec_fn(BookmarkView) -> Seq<char>,
    ks: Seq<Seq<char>>,
    start: int,
) -> Seq<NodeView>
    decreases ks.len(),
{
    if ks.len() == 0 {
        Seq::empty()
    } else {
        let s = keyed_end(bms, key, ks.drop_last(), start);
        let g = group_of(bms, key, ks.last());
        keyed_folders(bms, key, ks.drop_last(), start).push(
            folder_node_spec(ks.last(), id_of(s + g.len()), url_nodes(g, s)),
        )
    }
}

/// The keys of `bms`, each once, in lexicographic order.
pub open spec fn sorted_keys(bms: Seq<BookmarkView>, key: spec_fn(BookmarkView) -> Seq<char>) -> Seq<
    Seq<char>,
> {
    sorted_strs(distinct_keys(keys_of(bms, key)))
}

/// The tree that grouping by `key` builds: a folder "Organized Bookmarks"
/// holding one folder per key in lexicographic order.
pub open spec fn by_key_spec(bms: Seq<BookmarkView>, key: spec_fn(BookmarkView) -> Seq<char>) -> NodeView {
    let ks = sorted_keys(bms, key);
    folder_node_spec(
        "Organized Bookmarks"@,
        id_of(keyed_end(bms, key, ks, 1)),
        keyed_folders(bms, key, ks, 1),
    )
}

/// The next identifier after the topic folders for `ts`, numbered from
/// `start`: each topic's domain folders, then the topic folder.
pub open spec fn topics_end(bms: Seq<BookmarkView>, ts: Seq<Seq<char>>, start: int) -> int
    decreases ts.len(),
{
    if ts.len() == 0 {
        start
    } else {
        let s = topics_end(bms, ts.drop_last(), start);
        let g = group_of(bms, topic_key(), ts.last());
        keyed_end(g, domain_key(), sorted_keys(g, domain_key()), s) + 1
    }
}

/// The folders for the topics `ts`, in order, numbered from `start`: each
/// is named after its topic and holds one folder per domain of the
/// topic's bookmarks, in lexicographic order.
pub open spec fn topic_folders(bms: Seq<BookmarkView>, ts: Seq<Seq<char>>, start: int) -> Seq<
    NodeView,
>
    decreases ts.len(),
{
    if ts.len() == 0 {
        Seq::empty()
    } else {
        let s = topics_end(bms, ts.drop_last(), start);
        let g = group_of(bms, topic_key(), ts.last());
        let ds = sorted_keys(g, domain_key());
        topic_folders(bms, ts.drop_last(), start).push(
            folder_node_spec(ts.last(), id_of(keyed_end(g, domain_key(), ds, s)), keyed_folders(g, domain_key(), ds, s)),
        )
    }
}

/// The tree that topic organization builds: a folder "Organized
/// Bookmarks" holding one folder per topic ("Uncategorized" for bookmarks
/// without one) in lexicographic order, each holding domain folders.
pub open spec fn by_topic_spec(bms: Seq<BookmarkView>) -> NodeView {
    let ts = sorted_keys(bms, topic_key());
    folder_node_spec(
        "Organized Bookmarks"@,
        id_of(topics_end(bms, ts, 1)),
        topic_folders(bms, ts, 1),
    )
}

/// Append one folder per key of `bookmarks` (lexicographic order), each
/// holding the URL nodes of the bookmarks with that key; `keys` holds each
/// bookmark's key, identifiers are taken from `start` on.
fn push_keyed_folders(
    bookmarks: &[Bookmark],
    keys: &Vec<String>,
    Ghost(key): Ghost<spec_fn(BookmarkView) -> Seq<char>>,
    children: &mut Vec<RawBookmarkNode>,
    id_gen: &mut IdGenerator,
    Ghost(start): Ghost<int>,
)
    requires
        keys@.len() == bookmarks@.len(),
        forall|k: int| 0 <= k < keys@.len() ==> (#[trigger] keys@[k])@ == key(bookmarks@[k]@),
        old(id_gen).counter() == start % id_modulus(),
    ensures
        nodes_view(final(children)@) == nodes_view(old(children)@) + keyed_folders(
            bookmark_views(bookmarks@),
            key,
            sorted_keys(bookmark_views(bookmarks@), key),
            start,
        ),
        final(id_gen).counter() == keyed_end(
            bookmark_views(bookmarks@),
            key,
            sorted_keys(bookmark_views(bookmarks@), key),
            start,
        ) % id_modulus(),
{
    let ghost bms = bookmark_views(bookmarks@);
    assert(str_views(keys@) =~= keys_of(bms, key));
    let distinct = crate::grouping::distinct_strings(keys);
    let names = sort_strings(distinct);
    let ghost ks = sorted_keys(bms, key);
    let ghost before = nodes_view(children@);
    let mut j: usize = 0;
    while j < names.len()
        invariant
            keys@.len() == bookmarks@.len(),
            forall|k: int| 0 <= k < keys@.len() ==> (#[trigger] keys@[k])@ == key(bookmarks@[k]@),
            bms == bookmark_views(bookmarks@),
            str_views(names@) == ks,
            j <= names@.len(),
            nodes_view(children@) == before + keyed_folders(bms, key, ks.take(j as int), start),
            id_gen.counter() == keyed_end(bms, key, ks.take(j as int), start) % id_modulus(),
        decreases names@.len() - j,
    {
        let ghost t = ks.take(j + 1);
        assert(t.drop_last() =~= ks.take(j as int));
        assert(t.last() == names@[j as int]@);
        let ghost s = keyed_end(bms, key, ks.take(j as int), start);
        let group = select_by_key(bookmarks, keys, &names[j], Ghost(key));
        let mut nodes: Vec<RawBookmarkNode> = Vec::new();
        assert(nodes_view(nodes@) =~= Seq::empty());
        push_url_nodes(&group, &mut nodes, id_gen, Ghost(s));
        let ghost c1 = id_gen.counter();
        let id = id_gen.next();
        proof {
            vstd::arithmetic::div_mod::lemma_mod_twice(s + group@.len(), id_modulus());
            lemma_counter_shift(c1, s + group@.len(), 1);
        }
        assert(id@ == id_of(s + group@.len()));
        assert(nodes_view(nodes@) =~= url_nodes(ref_views(group@), s));
        let folder = build_folder_node(names[j].as_str(), id.as_str(), nodes);
        proof {
            lemma_nodes_view_push(children@, folder);
        }
        children.push(folder);
        assert(nodes_view(children@) =~= before + keyed_folders(bms, key, t, start));
        j = j + 1;
    }
    assert(ks.take(names@.len() as int) =~= ks);
}

/// The domain of each bookmark.
fn domain_keys(bookmarks: &[Bookmark]) -> (r: Vec<String>)
    ensures
        r@.len() == bookmarks@.len(),
        forall|k: int| 0 <= k < r@.len() ==> (#[trigger] r@[k])@ == domain_key()(bookmarks@[k]@),
{
    let mut keys: Vec<String> = Vec::new();
    let mut i: usize = 0;
    while i < bookmarks.len()
        invariant
            i <= bookmarks@.len(),
            keys@.len() == i,
            forall|k: int| 0 <= k < i ==> (#[trigger] keys@[k])@ == domain_key()(bookmarks@[k]@),
        decreases bookmarks@.len() - i,
    {
        keys.push(bookmarks[i].domain.clone());
        i = i + 1;
    }
    keys
}

/// A folder "Organized Bookmarks" holding the folders of `bookmarks` by
/// the keys in `keys`.
fn rebuild_by_keys(
    bookmarks: &[Bookmark],
    keys: &Vec<String>,
    Ghost(key): Ghost<spec_fn(BookmarkView) -> Seq<char>>,
    id_gen: &mut IdGenerator,
) -> (r: RawBookmarkNode)
    requires
        keys@.len() == bookmarks@.len(),
        forall|k: int| 0 <= k < keys@.len() ==> (#[trigger] keys@[k])@ == key(bookmarks@[k]@),
        old(id_gen).counter() == 1,
    ensures
        r@ == by_key_spec(bookmark_views(bookmarks@), key),
        final(id_gen).counter() == (keyed_end(
            bookmark_views(bookmarks@),
            key,
            sorted_keys(bookmark_views(bookmarks@), key),
            1,
        ) + 1) % id_modulus(),
{
    let ghost bms = bookmark_views(bookmarks@);
    let mut children: Vec<RawBookmarkNode> = Vec::new();
    assert(nodes_view(children@) =~= Seq::empty());
    assert(id_gen.counter() == 1int % id_modulus());
    push_keyed_folders(bookmarks, keys, Ghost(key), &mut children, id_gen, Ghost(1int));
    let ghost ks = sorted_keys(bms, key);
    assert(nodes_view(children@) =~= keyed_folders(bms, key, ks, 1));
    let ghost c1 = id_gen.counter();
    let id = id_gen.next();
    proof {
        vstd::arithmetic::div_mod::lemma_mod_twice(keyed_end(bms, key, ks, 1), id_modulus());
        lemma_counter_shift(c1, keyed_end(bms, key, ks, 1), 1);
    }
    build_folder_node("Organized Bookmarks", id.as_str(), children)
}

/// Rebuild bookmarks organized by domain.
pub fn rebuild_by_domain(bookmarks: &[Bookmark]) -> (r: RawBookmarkNode)
    ensures
        r@ == by_key_spec(bookmark_views(bookmarks@), domain_key()),
{
    let keys = domain_keys(bookmarks);
    let mut id_gen = IdGenerator::new(1);
    rebuild_by_keys(bookmarks, &keys, Ghost(domain_key()), &mut id_gen)
}

/// The root domain of each bookmark.
fn root_domain_keys(bookmarks: &[Bookmark]) -> (r: Vec<String>)
    ensures
        r@.len() == bookmarks@.len(),
        forall|k: int| 0 <= k < r@.len() ==> (#[trigger] r@[k])@ == root_domain_key()(bookmarks@[k]@),
{
    let mut keys: Vec<String> = Vec::new();
    let mut i: usize = 0;
    while i < bookmarks.len()
        invariant
            i <= bookmarks@.len(),
            keys@.len() == i,
            forall|k: int| 0 <= k < i ==> (#[trigger] keys@[k])@ == root_domain_key()(bookmarks@[k]@),
        decreases bookmarks@.len() - i,
    {
        keys.push(extract_root_domain(bookmarks[i].domain.as_str()));
        i = i + 1;
    }
    keys
}

/// Rebuild bookmarks organized by root domain (subdomains folded into
/// their registrable domain).
pub fn rebuild_by_root_domain(bookmarks: &[Bookmark]) -> (r: RawBookmarkNode)
    ensures
        r@ == by_key_spec(bookmark_views(bookmarks@), root_domain_key()),
{
    let keys = root_domain_keys(bookmarks);
    let mut id_gen = IdGenerator::new(1);
    rebuild_by_keys(bookmarks, &keys, Ghost(root_domain_key()), &mut id_gen)
}

/// Rebuild bookmarks organized by topic, then by domain: a folder per
/// assigned topic ("Uncategorized" without one), each holding a folder per
/// domain.
pub fn rebuild_by_topic(bookmarks: &[Bookmark]) -> (r: RawBookmarkNode)
    ensures
        r@ == by_topic_spec(bookmark_views(bookmarks@)),
{
    let mut id_gen = IdGenerator::new(1);
    topic_tree(bookmarks, &mut id_gen)
}

/// The folder of one topic: its domain folders, identifiers from `s`, and
/// the folder numbered after them.
fn build_topic_folder(
    bookmarks: &[Bookmark],
    keys: &Vec<String>,
    topic: &String,
    id_gen: &mut IdGenerator,
    Ghost(s): Ghost<int>,
) -> (r: RawBookmarkNode)
    requires
        keys@.len() == bookmarks@.len(),
        forall|k: int| 0 <= k < keys@.len() ==> (#[trigger] keys@[k])@ == topic_key()(bookmarks@[k]@),
        old(id_gen).counter() == s % id_modulus(),
    ensures
        ({
            let g = group_of(bookmark_views(bookmarks@), topic_key(), topic@);
            let ds = sorted_keys(g, domain_key());
            &&& r@ == folder_node_spec(
                topic@,
                id_of(keyed_end(g, domain_key(), ds, s)),
                keyed_folders(g, domain_key(), ds, s),
            )
            &&& final(id_gen).counter() == (keyed_end(g, domain_key(), ds, s) + 1) % id_modulus()
        }),
{
    let ghost bms = bookmark_views(bookmarks@);
    let group = select_by_key(bookmarks, keys, topic, Ghost(topic_key()));
    let owned = copy_refs(&group);
    let ghost g = bookmark_views(owned@);
    assert(g == group_of(bms, topic_key(), topic@));
    let dkeys = domain_keys(owned.as_slice());
    let mut sub: Vec<RawBookmarkNode> = Vec::new();
    assert(nodes_view(sub@) =~= Seq::empty());
    push_keyed_folders(owned.as_slice(), &dkeys, Ghost(domain_key()), &mut sub, id_gen, Ghost(s));
    let ghost ds = sorted_keys(g, domain_key());
    assert(nodes_view(sub@) =~= keyed_folders(g, domain_key(), ds, s));
    let ghost e = keyed_end(g, domain_key(), ds, s);
    let ghost c1 = id_gen.counter();
    let id = id_gen.next();
    proof {
        vstd::arithmetic::div_mod::lemma_mod_twice(e, id_modulus());
        lemma_counter_shift(c1, e, 1);
    }
    assert(id@ == id_of(e));
    build_folder_node(topic.as_str(), id.as_str(), sub)
}

/// The topic tree, identifiers taken from a fresh generator, which is left
/// at the identifier after the tree's.
fn topic_tree(bookmarks: &[Bookmark], id_gen: &mut IdGenerator) -> (r: RawBookmarkNode)
    requires
        old(id_gen).counter() == 1,
    ensures
        r@ == by_topic_spec(bookmark_views(bookmarks@)),
        final(id_gen).counter() == (organized_end(bookmark_views(bookmarks@), OrganizeStrategy::ByTopic) + 1)
            % id_modulus(),
{
    let ghost bms = bookmark_views(bookmarks@);
    let mut keys: Vec<String> = Vec::new();
    let mut i: usize = 0;
    while i < bookmarks.len()
        invariant
            i <= bookmarks@.len(),
            keys@.len() == i,
            forall|k: int| 0 <= k < i ==> (#[trigger] keys@[k])@ == topic_key()(bookmarks@[k]@),
        decreases bookmarks@.len() - i,
    {
        let k = match &bookmarks[i].topic {
            Some(t) => t.clone(),
            None => String::from_str("Uncategorized"),
        };
        keys.push(k);
        i = i + 1;
    }
    assert(str_views(keys@) =~= keys_of(bms, topic_key()));
    let distinct = crate::grouping::distinct_strings(&keys);
    let topics = sort_strings(distinct);
    let ghost ts = sorted_keys(bms, topic_key());
    assert(id_gen.counter() == 1int % id_modulus());
    let mut children: Vec<RawBookmarkNode> = Vec::new();
    assert(nodes_view(children@) =~= Seq::empty());
    let mut j: usize = 0;
    while j < topics.len()
        invariant
            keys@.len() == bookmarks@.len(),
            forall|k: int| 0 <= k < keys@.len() ==> (#[trigger] keys@[k])@ == topic_key()(bookmarks@[k]@),
            bms == bookmark_views(bookmarks@),
            str_views(topics@) == ts,
            j <= topics@.len(),
            nodes_view(children@) == topic_folders(bms, ts.take(j as int), 1),
            id_gen.counter() == topics_end(bms, ts.take(j as int), 1) % id_modulus(),
        decreases topics@.len() - j,
    {
        let ghost t = ts.take(j + 1);
        assert(t.drop_last() =~= ts.take(j as int));
        assert(t.last() == topics@[j as int]@);
        let ghost s = topics_end(bms, ts.take(j as int), 1);
        let folder = build_topic_folder(bookmarks, &keys, &topics[j], id_gen, Ghost(s));
        proof {
            lemma_nodes_view_push(children@, folder);
        }
        children.push(folder);
        assert(nodes_view(children@) =~= topic_folders(bms, t, 1));
        j = j + 1;
    }
    assert(ts.take(topics@.len() as int) =~= ts);
    let ghost c2 = id_gen.counter();
    let id = id_gen.next();
    proof {
        vstd::arithmetic::div_mod::lemma_mod_twice(topics_end(bms, ts, 1), id_modulus());
        lemma_counter_shift(c2, topics_end(bms, ts, 1), 1);
    }
    build_folder_node("Organized Bookmarks", id.as_str(), children)
}

/// The key of folder grouping: the bookmark's folder path.
pub open spec fn folder_key() -> spec_fn(BookmarkView) -> Seq<char> {
    |b: BookmarkView| b.folder_path
}

/// The folder paths of `bms`, each once, in order of first occurrence.
pub open spec fn folder_paths(bms: Seq<BookmarkView>) -> Seq<Seq<char>> {
    distinct_keys(keys_of(bms, folder_key()))
}

/// The length of the first `/`-separated segment of `s`: the index of its
/// first `/`, or its length when it has none.
pub open spec fn seg_len(s: Seq<char>) -> nat
    decreases s.len(),
{
    if s.len() == 0 {
        0
    } else if s[0] == '/' {
        0
    } else {
        1 + seg_len(s.skip(1))
    }
}

/// The first segment of `s` holds no `/` and ends at a `/` or at the end.
pub proof fn lemma_seg_len(s: Seq<char>)
    ensures
        seg_len(s) <= s.len(),
        forall|k: int| 0 <= k < seg_len(s) ==> s[k] != '/',
        seg_len(s) < s.len() ==> s[seg_len(s) as int] == '/',
    decreases s.len(),
{
    if s.len() > 0 && s[0] != '/' {
        lemma_seg_len(s.skip(1));
        assert forall|k: int| 0 <= k < seg_len(s) implies s[k] != '/' by {
            if k > 0 {
                assert(s[k] == s.skip(1)[k - 1]);
            }
        }
        if seg_len(s) < s.len() {
            assert(s[seg_len(s) as int] == s.skip(1)[seg_len(s) - 1]);
        }
    }
}

/// A prefix free of `/` that ends at a `/` or at the end is the first
/// segment.
pub proof fn lemma_seg_len_at(s: Seq<char>, k: int)
    requires
        0 <= k <= s.len(),
        forall|j: int| 0 <= j < k ==> s[j] != '/',
        k == s.len() || s[k] == '/',
    ensures
        seg_len(s) == k,
{
    lemma_seg_len(s);
}

/// Where the part of a path below folder `parent` starts: after the
/// parent's path and its `/`, or at 0 for the top level.
pub open spec fn sub_start(parent: Seq<char>) -> int {
    if parent.len() == 0 {
        0
    } else {
        parent.len() as int + 1
    }
}

/// Whether folder path `p` lies strictly inside folder `parent`: at the top
/// level, any path whose first segment is not empty; below it, a path that
/// starts with the parent's path and `/`.
pub open spec fn is_below(parent: Seq<char>, p: Seq<char>) -> bool {
    if parent.len() == 0 {
        p.len() > 0 && p[0] != '/'
    } else {
        p.len() > parent.len() && p.take(parent.len() as int + 1) == parent.push('/')
    }
}

/// The predicate "lies strictly inside `parent`".
pub open spec fn below(parent: Seq<char>) -> spec_fn(Seq<char>) -> bool {
    |p: Seq<char>| is_below(parent, p)
}

/// Whether folder path `q` is folder `c` itself or lies inside it.
pub open spec fn is_within(c: Seq<char>, q: Seq<char>) -> bool {
    q == c || is_below(c, q)
}

/// The immediate subfolder of `parent` on the way to the folder `p` inside
/// it: `p` up to the end of the segment that follows `parent`.
pub open spec fn child_toward(parent: Seq<char>, p: Seq<char>) -> Seq<char> {
    p.take(sub_start(parent) + seg_len(p.skip(sub_start(parent))))
}

/// The map "immediate subfolder of `parent` on the way to".
pub open spec fn toward(parent: Seq<char>) -> spec_fn(Seq<char>) -> Seq<char> {
    |p: Seq<char>| child_toward(parent, p)
}

/// Whether folder path `p` is an immediate subfolder of folder path
/// `parent`: at the top level, a non-empty path without `/`; below it, the
/// parent's path, `/`, and a last segment without `/`.
pub open spec fn is_child_of(parent: Seq<char>) -> spec_fn(Seq<char>) -> bool {
    |p: Seq<char>|
        if parent.len() == 0 {
            p.len() > 0 && !p.contains('/')
        } else {
            &&& p.len() > parent.len()
            &&& p.take(parent.len() as int + 1) == parent.push('/')
            &&& !p.skip(parent.len() as int + 1).contains('/')
        }
}

/// The immediate subfolders of `parent` that lead to the folders of
/// `paths`, each once, in lexicographic order.
pub open spec fn children_of(paths: Seq<Seq<char>>, parent: Seq<char>) -> Seq<Seq<char>> {
    sorted_strs(distinct_keys(paths.filter(below(parent)).map_values(toward(parent))))
}

/// The name of subfolder `p` of `parent`: its last segment.
pub open spec fn child_name(parent: Seq<char>, p: Seq<char>) -> Seq<char> {
    if parent.len() == 0 {
        p
    } else {
        p.skip(parent.len() as int + 1)
    }
}

/// The step from a folder toward a folder inside it is an immediate
/// subfolder, no longer than the target, which it contains.
pub proof fn lemma_toward(parent: Seq<char>, p: Seq<char>)
    requires
        is_below(parent, p),
    ensures
        is_child_of(parent)(child_toward(parent, p)),
        is_within(child_toward(parent, p), p),
        child_toward(parent, p).len() <= p.len(),
{
    let o = sub_start(parent);
    let r = p.skip(o);
    let k = seg_len(r) as int;
    let c = child_toward(parent, p);
    lemma_seg_len(r);
    assert(c == p.take(o + k));
    if parent.len() == 0 {
        assert(r =~= p);
        assert(k >= 1) by {
            assert(seg_len(p) == 1 + seg_len(p.skip(1)));
        }
        assert(!c.contains('/')) by {
            if c.contains('/') {
                let j = choose|j: int| 0 <= j < c.len() && c[j] == '/';
                assert(p[j] == '/');
            }
        }
        if k < p.len() {
            assert(p[k] == '/');
            assert(p.take(k + 1) =~= c.push('/'));
        } else {
            assert(c =~= p);
        }
    } else {
        assert(c.take(parent.len() as int + 1) =~= p.take(parent.len() as int + 1));
        assert(!c.skip(o).contains('/')) by {
            if c.skip(o).contains('/') {
                let j = choose|j: int| 0 <= j < c.skip(o).len() && c.skip(o)[j] == '/';
                assert(r[j] == '/');
            }
        }
        if k < r.len() {
            assert(p[o + k] == r[k]);
            assert(p.take(o + k + 1) =~= c.push('/'));
        } else {
            assert(c =~= p);
        }
    }
}

/// A folder inside an immediate subfolder `c` of `parent` lies inside
/// `parent`, and the step from `parent` toward it is `c`.
pub proof fn lemma_toward_unique(parent: Seq<char>, c: Seq<char>, q: Seq<char>)
    requires
        is_child_of(parent)(c),
        is_within(c, q),
    ensures
        is_below(parent, q),
        child_toward(parent, q) == c,
{
    let o = sub_start(parent);
    let s = c.skip(o);
    assert(!s.contains('/')) by {
        if parent.len() == 0 {
            assert(s =~= c);
        }
    }
    assert forall|j: int| 0 <= j < s.len() implies s[j] != '/' by {
        if s[j] == '/' {
            assert(s.contains('/'));
        }
    }
    if parent.len() == 0 {
        assert(c[0] != '/') by {
            assert(c.contains(c[0]));
        }
    }
    if q == c {
        lemma_seg_len_at(s, s.len() as int);
        assert(c.take(o + s.len()) =~= c);
    } else {
        assert(q.take(c.len() as int + 1) == c.push('/'));
        assert forall|j: int| 0 <= j < c.len() implies q[j] == c[j] by {
            assert(q.take(c.len() as int + 1)[j] == c.push('/')[j]);
        }
        assert(q[c.len() as int] == '/') by {
            assert(q.take(c.len() as int + 1)[c.len() as int] == c.push('/')[c.len() as int]);
        }
        if parent.len() > 0 {
            assert(q.take(parent.len() as int + 1) =~= c.take(parent.len() as int + 1));
        }
        let r = q.skip(o);
        assert forall|j: int| 0 <= j < s.len() implies r[j] != '/' by {
            assert(r[j] == q[o + j]);
            assert(s[j] == c[o + j]);
        }
        assert(r[s.len() as int] == q[c.len() as int]);
        lemma_seg_len_at(r, s.len() as int);
        assert(q.take(o + s.len()) =~= c);
    }
}

/// Parsing rebuilds the path of subfolder `c` from its parent's path and
/// its name.
pub proof fn lemma_child_path(parent: Seq<char>, c: Seq<char>)
    requires
        is_child_of(parent)(c),
    ensures
        child_path(parent, child_name(parent, c)) == c,
{
    if parent.len() > 0 {
        reveal_strlit("/");
        assert(parent + "/"@ + c.skip(parent.len() as int + 1) =~= c) by {
            assert(c.take(parent.len() as int + 1) == parent.push('/'));
            assert forall|j: int| 0 <= j <= parent.len() implies c[j] == parent.push('/')[j] by {
                assert(c.take(parent.len() as int + 1)[j] == c[j]);
            }
        }
    }
}

/// The greatest length among `s` (0 when empty).
pub open spec fn max_len(s: Seq<Seq<char>>) -> int
    decreases s.len(),
{
    if s.len() == 0 {
        0
    } else if max_len(s.drop_last()) >= s.last().len() {
        max_len(s.drop_last())
    } else {
        s.last().len() as int
    }
}

/// No element of `s` is longer than `max_len(s)`.
pub proof fn lemma_max_len(s: Seq<Seq<char>>)
    ensures
        max_len(s) >= 0,
        forall|i: int| 0 <= i < s.len() ==> (#[trigger] s[i]).len() <= max_len(s),
    decreases s.len(),
{
    if s.len() > 0 {
        lemma_max_len(s.drop_last());
        assert forall|i: int| 0 <= i < s.len() implies (#[trigger] s[i]).len() <= max_len(s) by {
            if i < s.len() - 1 {
                assert(s[i] == s.drop_last()[i]);
            }
        }
    }
}

/// Whether every path of `cs` is an immediate subfolder of `parent` no
/// longer than the longest of `paths`.
pub open spec fn all_children(paths: Seq<Seq<char>>, parent: Seq<char>, cs: Seq<Seq<char>>) -> bool {
    forall|i: int|
        0 <= i < cs.len() ==> {
            &&& is_child_of(parent)(#[trigger] cs[i])
            &&& cs[i].len() <= max_len(paths)
        }
}

/// The nodes that the folder `path` contributes, identifiers from `start`,
/// and the next identifier: the URL nodes of the bookmarks directly in
/// `path` (input order), then one folder per immediate subfolder on the way
/// to a folder of `paths` (lexicographic order), each holding that
/// subfolder's own nodes; a subfolder without bookmarks of its own is
/// created where a deeper folder needs it.
pub open spec fn tree_spec(
    bms: Seq<BookmarkView>,
    paths: Seq<Seq<char>>,
    path: Seq<char>,
    start: int,
) -> (Seq<NodeView>, int)
    decreases max_len(paths) - path.len(), 1int, 0int,
    when path.len() <= max_len(paths)
{
    let direct = group_of(bms, folder_key(), path);
    let f = forest_spec(
        bms,
        paths,
        path,
        children_of(paths, path),
        start + direct.len(),
    );
    (url_nodes(direct, start) + f.0, f.1)
}

/// The folder nodes of the subfolders `cs` of `parent`, identifiers from
/// `start`, and the next identifier: each subfolder's own nodes are
/// numbered before its folder.
pub open spec fn forest_spec(
    bms: Seq<BookmarkView>,
    paths: Seq<Seq<char>>,
    parent: Seq<char>,
    cs: Seq<Seq<char>>,
    start: int,
) -> (Seq<NodeView>, int)
    decreases max_len(paths) - parent.len(), 0int, cs.len(),
    when parent.len() <= max_len(paths) && all_children(paths, parent, cs)
{
    if cs.len() == 0 {
        (Seq::empty(), start)
    } else {
        let prev = forest_spec(bms, paths, parent, cs.drop_last(), start);
        let c = cs.last();
        proof {
            assert(is_child_of(parent)(cs[cs.len() - 1]));
        }
        let kids = tree_spec(bms, paths, c, prev.1);
        (prev.0.push(folder_node_spec(child_name(parent, c), id_of(kids.1), kids.0)), kids.1 + 1)
    }
}

/// The tree that preserving organization builds: a folder "Bookmarks Bar"
/// holding the nodes of the top-level folder.
pub open spec fn preserve_spec(bms: Seq<BookmarkView>) -> NodeView {
    let t = tree_spec(bms, folder_paths(bms), Seq::empty(), 1);
    folder_node_spec("Bookmarks Bar"@, id_of(t.1), t.0)
}

/// The immediate subfolder of `parent` on the way to folder `p`, where `p`
/// lies inside `parent`.
fn step_toward(parent: &Vec<char>, p: &str) -> (r: Option<String>)
    ensures
        match r {
            Some(c) => is_below(parent@, p@) && c@ == child_toward(parent@, p@),
            None => !is_below(parent@, p@),
        },
{
    let v = chars_of(p);
    let n = parent.len();
    let o: usize;
    if n == 0 {
        if v.len() == 0 || v[0] == '/' {
            return None;
        }
        o = 0;
    } else {
        if v.len() <= n {
            return None;
        }
        let mut i: usize = 0;
        while i < n
            invariant
                v@ == p@,
                n == parent@.len(),
                n < v@.len(),
                i <= n,
                forall|k: int| 0 <= k < i ==> v@[k] == parent@[k],
            decreases n - i,
        {
            if v[i] != parent[i] {
                assert(v@.take(n as int + 1)[i as int] != parent@.push('/')[i as int]);
                return None;
            }
            i = i + 1;
        }
        if v[n] != '/' {
            assert(v@.take(n as int + 1)[n as int] != parent@.push('/')[n as int]);
            return None;
        }
        assert(v@.take(n as int + 1) =~= parent@.push('/'));
        o = n + 1;
    }
    assert(o == sub_start(parent@));
    let mut k: usize = o;
    while k < v.len() && v[k] != '/'
        invariant
            v@ == p@,
            o <= k <= v@.len(),
            forall|j: int| o <= j < k ==> v@[j] != '/',
        decreases v@.len() - k,
    {
        k = k + 1;
    }
    proof {
        let r = v@.skip(o as int);
        assert forall|j: int| 0 <= j < k - o implies r[j] != '/' by {
            assert(r[j] == v@[o + j]);
        }
        if k < v@.len() {
            assert(r[k - o] == v@[k as int]);
        }
        lemma_seg_len_at(r, k - o);
    }
    let c = string_of_range(&v, 0, k);
    assert(c@ =~= p@.take(k as int));
    Some(c)
}

/// The immediate subfolders of `parent` that lead to the folders of
/// `all_paths`, each once, sorted.
fn child_folders(all_paths: &Vec<String>, parent: &str) -> (r: Vec<String>)
    ensures
        str_views(r@) == children_of(str_views(all_paths@), parent@),
{
    let pv = chars_of(parent);
    let ghost pr = below(parent@);
    let ghost tw = toward(parent@);
    let ghost ps = str_views(all_paths@);
    let mut steps: Vec<String> = Vec::new();
    let mut i: usize = 0;
    while i < all_paths.len()
        invariant
            pv@ == parent@,
            pr == below(parent@),
            tw == toward(parent@),
            ps == str_views(all_paths@),
            i <= all_paths@.len(),
            str_views(steps@) == ps.take(i as int).filter(pr).map_values(tw),
        decreases all_paths@.len() - i,
    {
        let ghost before = str_views(steps@);
        assert(ps.take(i + 1) =~= ps.take(i as int).push(ps[i as int]));
        proof {
            ps.take(i as int).lemma_filter_push(ps[i as int], pr);
        }
        match step_toward(&pv, all_paths[i].as_str()) {
            Some(c) => {
                assert(all_paths@[i as int]@ == ps[i as int]);
                assert(pr(ps[i as int]));
                let ghost fi = ps.take(i as int).filter(pr);
                assert(ps.take(i + 1).filter(pr) == fi.push(ps[i as int]));
                assert(fi.push(ps[i as int]).map_values(tw) =~= fi.map_values(tw).push(tw(ps[i as int])));
                steps.push(c);
                assert(str_views(steps@) =~= before.push(c@));
            },
            None => {
                assert(ps.take(i + 1).filter(pr) == ps.take(i as int).filter(pr));
            },
        }
        i = i + 1;
    }
    assert(ps.take(all_paths@.len() as int) =~= ps);
    let d = crate::grouping::distinct_strings(&steps);
    sort_strings(d)
}

/// Whether the immediate subfolder `c` of `parent` leads to a folder of
/// `paths`.
pub open spec fn leads_to(paths: Seq<Seq<char>>, parent: Seq<char>, c: Seq<char>) -> bool {
    exists|p: Seq<char>|
        paths.contains(p) && is_below(parent, p) && c == #[trigger] child_toward(parent, p)
}

/// The immediate subfolders that lead to the folders of `paths` are
/// immediate subfolders, no longer than the longest path, and occur once
/// each; every folder of `paths` strictly inside `parent` is reached
/// through one of them.
pub proof fn lemma_children(paths: Seq<Seq<char>>, parent: Seq<char>)
    ensures
        all_children(paths, parent, children_of(paths, parent)),
        children_of(paths, parent).no_duplicates(),
        forall|q: Seq<char>|
            paths.contains(q) && is_below(parent, q) ==> #[trigger] children_of(
                paths,
                parent,
            ).contains(child_toward(parent, q)),
        forall|i: int|
            0 <= i < children_of(paths, parent).len() ==> leads_to(
                paths,
                parent,
                #[trigger] children_of(paths, parent)[i],
            ),
{
    let f = paths.filter(below(parent));
    let m = f.map_values(toward(parent));
    let d = distinct_keys(m);
    let cs = children_of(paths, parent);
    crate::grouping::lemma_distinct_keys(m);
    lemma_sorted_distinct(d);
    lemma_max_len(paths);
    assert forall|i: int| 0 <= i < cs.len() implies {
        &&& is_child_of(parent)(#[trigger] cs[i])
        &&& cs[i].len() <= max_len(paths)
    } by {
        assert(cs.contains(cs[i]));
        assert(m.contains(cs[i]));
        let j = choose|j: int| 0 <= j < m.len() && m[j] == cs[i];
        assert(f.contains(f[j]));
        paths.lemma_filter_contains_rev(below(parent), f[j]);
        let k = choose|k: int| 0 <= k < paths.len() && paths[k] == f[j];
        paths.lemma_filter_pred(below(parent), j);
        lemma_toward(parent, f[j]);
        assert(paths[k].len() <= max_len(paths));
    }
    assert forall|i: int| 0 <= i < cs.len() implies leads_to(paths, parent, #[trigger] cs[i]) by {
        assert(cs.contains(cs[i]));
        assert(m.contains(cs[i]));
        let j = choose|j: int| 0 <= j < m.len() && m[j] == cs[i];
        assert(f.contains(f[j]));
        paths.lemma_filter_contains_rev(below(parent), f[j]);
        paths.lemma_filter_pred(below(parent), j);
        assert(paths.contains(f[j]) && is_below(parent, f[j]) && cs[i] == child_toward(parent, f[j]));
    }
    assert forall|q: Seq<char>| paths.contains(q) && is_below(parent, q) implies #[trigger] cs.contains(
        child_toward(parent, q),
    ) by {
        let k = choose|k: int| 0 <= k < paths.len() && paths[k] == q;
        paths.lemma_filter_contains(below(parent), k);
        let j = choose|j: int| 0 <= j < f.len() && f[j] == q;
        assert(m[j] == child_toward(parent, q));
        assert(m.contains(child_toward(parent, q)));
    }
}

/// A subfolder is longer than its parent.
proof fn lemma_child_longer(parent: Seq<char>, c: Seq<char>)
    requires
        is_child_of(parent)(c),
    ensures
        c.len() > parent.len(),
{
}

/// The last segment of subfolder `c` of `parent`.
fn child_name_of(parent: &str, c: &str) -> (r: String)
    requires
        is_child_of(parent@)(c@),
    ensures
        r@ == child_name(parent@, c@),
{
    if parent.is_empty() {
        String::from_str(c)
    } else {
        let n = parent.unicode_len();
        let v = chars_of(c);
        let vl = v.len();
        assert(vl > n);
        let r = string_of_range(&v, n + 1, vl);
        assert(r@ =~= c@.skip(n as int + 1));
        r
    }
}

/// Build the nodes of folder `path` (its bookmarks, then its subfolders).
fn build_nested(
    path: &str,
    bookmarks: &[Bookmark],
    keys: &Vec<String>,
    all_paths: &Vec<String>,
    id_gen: &mut IdGenerator,
    Ghost(start): Ghost<int>,
) -> (r: Vec<RawBookmarkNode>)
    requires
        keys@.len() == bookmarks@.len(),
        forall|k: int| 0 <= k < keys@.len() ==> (#[trigger] keys@[k])@ == folder_key()(bookmarks@[k]@),
        path@.len() <= max_len(str_views(all_paths@)),
        old(id_gen).counter() == start % id_modulus(),
    ensures
        nodes_view(r@) == tree_spec(bookmark_views(bookmarks@), str_views(all_paths@), path@, start).0,
        final(id_gen).counter() == tree_spec(
            bookmark_views(bookmarks@),
            str_views(all_paths@),
            path@,
            start,
        ).1 % id_modulus(),
    decreases max_len(str_views(all_paths@)) - path@.len(),
{
    let ghost bms = bookmark_views(bookmarks@);
    let ghost paths = str_views(all_paths@);
    let path_s = String::from_str(path);
    let direct = select_by_key(bookmarks, keys, &path_s, Ghost(folder_key()));
    let mut nodes: Vec<RawBookmarkNode> = Vec::new();
    assert(nodes_view(nodes@) =~= Seq::empty());
    push_url_nodes(&direct, &mut nodes, id_gen, Ghost(start));
    let ghost base = start + direct@.len();
    let ghost urls = url_nodes(ref_views(direct@), start);
    assert(nodes_view(nodes@) =~= urls);
    let children = child_folders(all_paths, path);
    let ghost cs = children_of(paths, path@);
    proof {
        lemma_children(paths, path@);
        lemma_max_len(paths);
    }
    let mut i: usize = 0;
    while i < children.len()
        invariant
            keys@.len() == bookmarks@.len(),
            forall|k: int| 0 <= k < keys@.len() ==> (#[trigger] keys@[k])@ == folder_key()(bookmarks@[k]@),
            bms == bookmark_views(bookmarks@),
            paths == str_views(all_paths@),
            path@.len() <= max_len(paths),
            str_views(children@) == cs,
            cs == children_of(paths, path@),
            all_children(paths, path@, cs),
            forall|k: int| 0 <= k < paths.len() ==> (#[trigger] paths[k]).len() <= max_len(paths),
            i <= children@.len(),
            nodes_view(nodes@) == urls + forest_spec(bms, paths, path@, cs.take(i as int), base).0,
            id_gen.counter() == forest_spec(bms, paths, path@, cs.take(i as int), base).1 % id_modulus(),
        decreases children@.len() - i,
    {
        let ghost t = cs.take(i + 1);
        assert(t.drop_last() =~= cs.take(i as int));
        assert(all_children(paths, path@, t));
        assert(all_children(paths, path@, cs.take(i as int)));
        let ghost prev = forest_spec(bms, paths, path@, cs.take(i as int), base);
        let ghost c = cs[i as int];
        assert(t.last() == c);
        assert(children@[i as int]@ == c);
        proof {
            lemma_child_longer(path@, c);
        }
        let kids = build_nested(children[i].as_str(), bookmarks, keys, all_paths, id_gen, Ghost(prev.1));
        let ghost sub = tree_spec(bms, paths, c, prev.1);
        let name = child_name_of(path, children[i].as_str());
        let ghost c1 = id_gen.counter();
        let id = id_gen.next();
        proof {
            vstd::arithmetic::div_mod::lemma_mod_twice(sub.1, id_modulus());
            lemma_counter_shift(c1, sub.1, 1);
        }
        let folder = build_folder_node(name.as_str(), id.as_str(), kids);
        proof {
            lemma_nodes_view_push(nodes@, folder);
        }
        nodes.push(folder);
        i = i + 1;
    }
    assert(cs.take(children@.len() as int) =~= cs);
    nodes
}

/// The tree of the original folder structure, identifiers taken from a
/// fresh generator, which is left at the identifier after the tree's.
fn preserve_tree(bookmarks: &[Bookmark], id_gen: &mut IdGenerator) -> (r: RawBookmarkNode)
    requires
        old(id_gen).counter() == 1,
    ensures
        r@ == preserve_spec(bookmark_views(bookmarks@)),
        final(id_gen).counter() == (organized_end(bookmark_views(bookmarks@), OrganizeStrategy::PreserveOriginal) + 1)
            % id_modulus(),
{
    let ghost bms = bookmark_views(bookmarks@);
    let mut keys: Vec<String> = Vec::new();
    let mut i: usize = 0;
    while i < bookmarks.len()
        invariant
            i <= bookmarks@.len(),
            keys@.len() == i,
            forall|k: int| 0 <= k < i ==> (#[trigger] keys@[k])@ == folder_key()(bookmarks@[k]@),
        decreases bookmarks@.len() - i,
    {
        keys.push(bookmarks[i].folder_path.clone());
        i = i + 1;
    }
    assert(str_views(keys@) =~= keys_of(bms, folder_key()));
    let all_paths = crate::grouping::distinct_strings(&keys);
    proof {
        lemma_max_len(str_views(all_paths@));
        reveal_strlit("");
        assert(""@ =~= Seq::<char>::empty());
        assert(id_gen.counter() == 1int % id_modulus());
    }
    let children = build_nested("", bookmarks, &keys, &all_paths, id_gen, Ghost(1int));
    let ghost t = tree_spec(bms, folder_paths(bms), Seq::empty(), 1);
    let ghost c1 = id_gen.counter();
    let id = id_gen.next();
    proof {
        vstd::arithmetic::div_mod::lemma_mod_twice(t.1, id_modulus());
        lemma_counter_shift(c1, t.1, 1);
    }
    build_folder_node("Bookmarks Bar", id.as_str(), children)
}

/// Rebuild bookmarks preserving the original folder structure.
pub fn rebuild_preserve_structure(bookmarks: &[Bookmark]) -> (r: RawBookmarkNode)
    ensures
        r@ == preserve_spec(bookmark_views(bookmarks@)),
{
    let mut id_gen = IdGenerator::new(1);
    preserve_tree(bookmarks, &mut id_gen)
}

/// The number of the last identifier in the tree that a strategy builds
/// (its root's); the tree's nodes are numbered from 1 up to it.
pub open spec fn organized_end(bms: Seq<BookmarkView>, strategy: OrganizeStrategy) -> int {
    match strategy {
        OrganizeStrategy::ByDomain => keyed_end(bms, domain_key(), sorted_keys(bms, domain_key()), 1),
        OrganizeStrategy::ByRootDomain => keyed_end(
            bms,
            root_domain_key(),
            sorted_keys(bms, root_domain_key()),
            1,
        ),
        OrganizeStrategy::ByTopic => topics_end(bms, sorted_keys(bms, topic_key()), 1),
        OrganizeStrategy::PreserveOriginal => tree_spec(bms, folder_paths(bms), Seq::empty(), 1).1,
    }
}

/// The empty "Other bookmarks" root of a rebuilt file, numbered right
/// after the rebuilt bookmark bar.
pub open spec fn other_root_spec(bms: Seq<BookmarkView>, strategy: OrganizeStrategy) -> NodeView {
    folder_node_spec("Other bookmarks"@, id_of(organized_end(bms, strategy) + 1), Seq::empty())
}

/// The bookmark bar that a strategy builds: domain or root-domain folders,
/// topic folders holding domain folders, or the original folder structure.
pub open spec fn organized_spec(bms: Seq<BookmarkView>, strategy: OrganizeStrategy) -> NodeView {
    match strategy {
        OrganizeStrategy::ByDomain => by_key_spec(bms, domain_key()),
        OrganizeStrategy::ByRootDomain => by_key_spec(bms, root_domain_key()),
        OrganizeStrategy::ByTopic => by_topic_spec(bms),
        OrganizeStrategy::PreserveOriginal => preserve_spec(bms),
    }
}

fn copy_extra(e: &Vec<(String, String)>) -> (r: Vec<(String, String)>)
    ensures
        extra_view(r@) == extra_view(e@),
{
    let mut r: Vec<(String, String)> = Vec::new();
    let mut i: usize = 0;
    while i < e.len()
        invariant
            i <= e@.len(),
            extra_view(r@) == extra_view(e@).take(i as int),
        decreases e@.len() - i,
    {
        let ghost before = extra_view(r@);
        let p = (e[i].0.clone(), e[i].1.clone());
        r.push(p);
        assert(extra_view(r@) =~= before.push((e@[i as int].0@, e@[i as int].1@)));
        assert(extra_view(e@).take(i + 1) =~= extra_view(e@).take(i as int).push(
            (e@[i as int].0@, e@[i as int].1@),
        ));
        i = i + 1;
    }
    assert(extra_view(e@).take(e@.len() as int) =~= extra_view(e@));
    r
}

/// Rebuild the complete bookmarks file with a new structure: the organized
/// tree as the bookmark bar, an empty "Other bookmarks" root, no synced
/// root, and the original checksum, version and extra fields.
pub fn rebuild_bookmarks_file(
    original: &BookmarksFile,
    bookmarks: &[Bookmark],
    strategy: OrganizeStrategy,
) -> (r: BookmarksFile)
    ensures
        r.roots.bookmark_bar@ == organized_spec(bookmark_views(bookmarks@), strategy),
        r.roots.other@ == other_root_spec(bookmark_views(bookmarks@), strategy),
        r.roots.synced is None,
        r.roots.extra@.len() == 0,
        r.checksum@ == original.checksum@,
        r.version == original.version,
        extra_view(r.extra@) == extra_view(original.extra@),
{
    let mut id_gen = IdGenerator::new(1);
    let organized = match strategy {
        OrganizeStrategy::ByDomain => {
            let keys = domain_keys(bookmarks);
            rebuild_by_keys(bookmarks, &keys, Ghost(domain_key()), &mut id_gen)
        },
        OrganizeStrategy::ByRootDomain => {
            let keys = root_domain_keys(bookmarks);
            rebuild_by_keys(bookmarks, &keys, Ghost(root_domain_key()), &mut id_gen)
        },
        OrganizeStrategy::ByTopic => topic_tree(bookmarks, &mut id_gen),
        OrganizeStrategy::PreserveOriginal => preserve_tree(bookmarks, &mut id_gen),
    };
    let ghost e = organized_end(bookmark_views(bookmarks@), strategy);
    let ghost c = id_gen.counter();
    let oid = id_gen.next();
    proof {
        vstd::arithmetic::div_mod::lemma_mod_twice(e + 1, id_modulus());
    }
    let other = build_folder_node("Other bookmarks", oid.as_str(), Vec::new());
    assert(nodes_view(Seq::<RawBookmarkNode>::empty()) =~= Seq::<NodeView>::empty());
    BookmarksFile {
        checksum: original.checksum.clone(),
        roots: BookmarkRoots {
            bookmark_bar: organized,
            other,
            synced: None,
            extra: Vec::new(),
        },
        version: original.version,
        extra: copy_extra(&original.extra),
    }
}

/// The strategy named by a command-line word, compared after lowercasing:
/// "domain", "preserve" or "original", "topic"; `None` for any other word.
pub open spec fn strategy_named(lowered: Seq<char>) -> Option<OrganizeStrategy> {
    if lowered == "domain"@ {
        Some(OrganizeStrategy::ByDomain)
    } else if lowered == "preserve"@ || lowered == "original"@ {
        Some(OrganizeStrategy::PreserveOriginal)
    } else if lowered == "topic"@ {
        Some(OrganizeStrategy::ByTopic)
    } else {
        None
    }
}

/// The organize strategy for a command-line word.
pub fn parse_strategy(strategy: &str) -> (r: Option<OrganizeStrategy>)
    ensures
        r == strategy_named(crate::text::spec_to_lowercase(strategy@)),
{
    let lowered = crate::text::to_lowercase(strategy);
    if crate::text::str_eq(lowered.as_str(), "domain") {
        Some(OrganizeStrategy::ByDomain)
    } else if crate::text::str_eq(lowered.as_str(), "preserve") || crate::text::str_eq(
        lowered.as_str(),
        "original",
    ) {
        Some(OrganizeStrategy::PreserveOriginal)
    } else if crate::text::str_eq(lowered.as_str(), "topic") {
        Some(OrganizeStrategy::ByTopic)
    } else {
        None
    }
}

/// Whether a rewrite of the bookmarks file may go ahead: never when no
/// bookmark was parsed, so that a misread file is not replaced by an empty
/// one.
pub fn save_allowed(bookmark_count: usize) -> (r: bool)
    ensures
        r == (bookmark_count > 0),
{
    bookmark_count > 0
}

} // verus!
