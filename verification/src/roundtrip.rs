//! What a rewrite of the bookmarks file gives back when the file is read
//! again: the folders of the rebuilt tree, flattened by the parser, hold
//! the bookmarks that went into them.
use vstd::prelude::*;
use crate::bookmark::{BookmarkView, NodeView};
use crate::grouping::{distinct_keys, group_of, has_key, keys_of, lemma_distinct_keys};
use crate::organizer::{domain_key, root_domain_key};
use crate::parser::{
    child_path, flatten_list_spec, flatten_spec, parse_spec, spec_extract_domain, spec_normalize_url,
};
use crate::rebuilder::{
    OrganizeStrategy, all_children, by_key_spec, child_toward, children_of, folder_key,
    folder_node_spec, folder_paths, forest_spec, is_below, is_child_of, is_within, keyed_end,
    keyed_folders, lemma_child_path, lemma_children, lemma_max_len, lemma_seg_len_at,
    lemma_toward, lemma_toward_unique, max_len, organized_spec, other_root_spec, seg_len,
    sorted_keys, topic_folders, topics_end, tree_spec, url_node_spec, url_nodes,
};
use crate::embeddings::topic_key;
use crate::sorting::lemma_sorted_distinct;
use crate::laws::lemma_filter_none;

verus! {

broadcast use vstd::seq_lib::group_seq_properties;

/// What a bookmark keeps through a rewrite of the file: its name, its URL
/// and its two dates.
pub open spec fn entry_of(b: BookmarkView) -> (
    Seq<char>,
    Seq<char>,
    Option<Seq<char>>,
    Option<Seq<char>>,
) {
    (b.name, b.url, b.date_added, b.date_last_used)
}

/// The map [`entry_of`].
pub open spec fn entry_fn() -> spec_fn(BookmarkView) -> (
    Seq<char>,
    Seq<char>,
    Option<Seq<char>>,
    Option<Seq<char>>,
) {
    |b: BookmarkView| entry_of(b)
}

/// The entries of the bookmarks of `bms` whose `key` is `k`, in order.
pub open spec fn entries_by(
    bms: Seq<BookmarkView>,
    key: spec_fn(BookmarkView) -> Seq<char>,
    k: Seq<char>,
) -> Seq<(Seq<char>, Seq<char>, Option<Seq<char>>, Option<Seq<char>>)> {
    group_of(bms, key, k).map_values(entry_fn())
}

/// The empty sequence of entries.
pub open spec fn no_entries() -> Seq<(Seq<char>, Seq<char>, Option<Seq<char>>, Option<Seq<char>>)> {
    Seq::empty()
}

/// Entries of a concatenation are the entries of its parts.
proof fn lemma_entries_add(
    a: Seq<BookmarkView>,
    b: Seq<BookmarkView>,
    key: spec_fn(BookmarkView) -> Seq<char>,
    k: Seq<char>,
)
    ensures
        entries_by(a + b, key, k) == entries_by(a, key, k) + entries_by(b, key, k),
{
    Seq::filter_distributes_over_add(a, b, has_key(key, k));
    assert(entries_by(a + b, key, k) =~= entries_by(a, key, k) + entries_by(b, key, k));
}

/// Filtering by a predicate that every element meets keeps everything.
proof fn lemma_filter_all<A>(s: Seq<A>, p: spec_fn(A) -> bool)
    requires
        forall|i: int| 0 <= i < s.len() ==> p(#[trigger] s[i]),
    ensures
        s.filter(p) == s,
    decreases s.len(),
{
    reveal(Seq::filter);
    if s.len() > 0 {
        lemma_filter_all(s.drop_last(), p);
        assert(s.drop_last().push(s.last()) =~= s);
    }
    assert(s.filter(p) =~= s);
}

/// When every bookmark of `x` has key `p`, its entries with key `k` are all
/// of its entries for `k == p`, and none otherwise.
proof fn lemma_entries_uniform(
    x: Seq<BookmarkView>,
    key: spec_fn(BookmarkView) -> Seq<char>,
    p: Seq<char>,
    k: Seq<char>,
)
    requires
        forall|i: int| 0 <= i < x.len() ==> key(#[trigger] x[i]) == p,
    ensures
        entries_by(x, key, k) == if k == p {
            x.map_values(entry_fn())
        } else {
            no_entries()
        },
{
    if k == p {
        lemma_filter_all(x, has_key(key, k));
    } else {
        lemma_filter_none(x, has_key(key, k));
        assert(entries_by(x, key, k) =~= no_entries());
    }
}

/// Bookmarks that have entries under key `k` exist in `bms`.
proof fn lemma_entries_witness(bms: Seq<BookmarkView>, key: spec_fn(BookmarkView) -> Seq<char>, k: Seq<char>)
    requires
        entries_by(bms, key, k).len() > 0,
    ensures
        exists|i: int| 0 <= i < bms.len() && key(#[trigger] bms[i]) == k,
{
    let g = group_of(bms, key, k);
    bms.lemma_filter_pred(has_key(key, k), 0);
    assert(g.contains(g[0]));
    bms.lemma_filter_contains_rev(has_key(key, k), g[0]);
    let i = choose|i: int| 0 <= i < bms.len() && bms[i] == g[0];
    assert(key(bms[i]) == k);
}

/// Parsing a concatenation of sibling nodes gives the bookmarks of each
/// part in turn.
pub proof fn lemma_flatten_add(a: Seq<crate::bookmark::NodeView>, b: Seq<crate::bookmark::NodeView>, path: Seq<char>)
    ensures
        flatten_list_spec(a + b, path) == flatten_list_spec(a, path) + flatten_list_spec(b, path),
    decreases b.len(),
{
    if b.len() == 0 {
        assert(a + b =~= a);
        assert(flatten_list_spec(b, path) =~= Seq::<BookmarkView>::empty());
        assert(flatten_list_spec(a, path) + flatten_list_spec(b, path) =~= flatten_list_spec(a, path));
    } else {
        lemma_flatten_add(a, b.drop_last(), path);
        assert((a + b).drop_last() =~= a + b.drop_last());
        assert((a + b).last() == b.last());
        assert(flatten_list_spec(a + b, path) =~= flatten_list_spec(a, path) + flatten_list_spec(
            b,
            path,
        ));
    }
}

/// Parsing the URL nodes of `g` inside folder `path` gives one bookmark per
/// element of `g`, in folder `path`, with the same entry.
proof fn lemma_flatten_urls(g: Seq<BookmarkView>, start: int, path: Seq<char>)
    ensures
        flatten_list_spec(url_nodes(g, start), path).len() == g.len(),
        forall|i: int|
            0 <= i < g.len() ==> {
                &&& (#[trigger] flatten_list_spec(url_nodes(g, start), path)[i]).folder_path
                    == path
                &&& entry_of(flatten_list_spec(url_nodes(g, start), path)[i]) == entry_of(g[i])
            },
    decreases g.len(),
{
    reveal_strlit("url");
    if g.len() > 0 {
        let g0 = g.drop_last();
        lemma_flatten_urls(g0, start, path);
        assert(url_nodes(g, start).drop_last() =~= url_nodes(g0, start));
        let n = url_nodes(g, start).last();
        assert(n == url_node_spec(g.last(), crate::rebuilder::id_of(start + g.len() - 1)));
        assert(flatten_spec(n, path).len() == 1);
        let x = flatten_list_spec(url_nodes(g, start), path);
        assert(x == flatten_list_spec(url_nodes(g0, start), path) + flatten_spec(n, path));
        assert forall|i: int| 0 <= i < g.len() implies {
            &&& (#[trigger] x[i]).folder_path == path
            &&& entry_of(x[i]) == entry_of(g[i])
        } by {
            if i < g.len() - 1 {
                assert(x[i] == flatten_list_spec(url_nodes(g0, start), path)[i]);
                assert(g[i] == g0[i]);
            }
        }
    } else {
        assert(url_nodes(g, start) =~= Seq::<crate::bookmark::NodeView>::empty());
    }
}

/// The entries under key `k` of the bookmarks parsed from the URL nodes of
/// `g` inside folder `path`: all of `g`'s where `k` is `path`, none
/// otherwise.
proof fn lemma_url_entries(g: Seq<BookmarkView>, start: int, path: Seq<char>, k: Seq<char>)
    ensures
        entries_by(flatten_list_spec(url_nodes(g, start), path), folder_key(), k) == if k == path {
            g.map_values(entry_fn())
        } else {
            no_entries()
        },
{
    let x = flatten_list_spec(url_nodes(g, start), path);
    lemma_flatten_urls(g, start, path);
    lemma_entries_uniform(x, folder_key(), path, k);
    if k == path {
        assert(x.map_values(entry_fn()) =~= g.map_values(entry_fn()));
    }
}

/// Every folder path of `bms` is among `paths`.
pub open spec fn covers(bms: Seq<BookmarkView>, paths: Seq<Seq<char>>) -> bool {
    forall|i: int| 0 <= i < bms.len() ==> paths.contains(#[trigger] bms[i].folder_path)
}

/// Whether folder path `q` is one of the folders `cs` or lies inside one.
pub open spec fn reaches(cs: Seq<Seq<char>>, q: Seq<char>) -> bool {
    exists|j: int| 0 <= j < cs.len() && #[trigger] is_within(cs[j], q)
}

/// Parsing the nodes that folder `path` contributes gives, for every folder
/// `q` that is `path` or lies inside it, the entries of the bookmarks of
/// `q` in order, and nothing for any other folder.
proof fn lemma_tree_entries(
    bms: Seq<BookmarkView>,
    paths: Seq<Seq<char>>,
    path: Seq<char>,
    start: int,
    q: Seq<char>,
)
    requires
        path.len() <= max_len(paths),
        covers(bms, paths),
    ensures
        entries_by(flatten_list_spec(tree_spec(bms, paths, path, start).0, path), folder_key(), q)
            == if is_within(path, q) {
            entries_by(bms, folder_key(), q)
        } else {
            no_entries()
        },
    decreases max_len(paths) - path.len(), 1int, 0int,
{
    let direct = group_of(bms, folder_key(), path);
    let cs = children_of(paths, path);
    lemma_children(paths, path);
    let f = forest_spec(bms, paths, path, cs, start + direct.len());
    let t = tree_spec(bms, paths, path, start);
    assert(t.0 == url_nodes(direct, start) + f.0);
    lemma_flatten_add(url_nodes(direct, start), f.0, path);
    lemma_entries_add(
        flatten_list_spec(url_nodes(direct, start), path),
        flatten_list_spec(f.0, path),
        folder_key(),
        q,
    );
    lemma_url_entries(direct, start, path, q);
    lemma_forest_entries(bms, paths, path, cs, start + direct.len(), q);
    let mine = entries_by(bms, folder_key(), q);
    if q == path {
        assert(!reaches(cs, q)) by {
            if reaches(cs, q) {
                let j = choose|j: int| 0 <= j < cs.len() && #[trigger] is_within(cs[j], q);
                lemma_toward_unique(path, cs[j], q);
            }
        }
        assert(direct.map_values(entry_fn()) == mine);
        assert(mine + no_entries() =~= mine);
    } else if is_below(path, q) {
        assert(no_entries() + entries_by(flatten_list_spec(f.0, path), folder_key(), q) =~= entries_by(
            flatten_list_spec(f.0, path),
            folder_key(),
            q,
        ));
        if mine.len() > 0 {
            lemma_entries_witness(bms, folder_key(), q);
            let i = choose|i: int| 0 <= i < bms.len() && folder_key()(#[trigger] bms[i]) == q;
            assert(paths.contains(bms[i].folder_path));
            assert(cs.contains(child_toward(path, q)));
            let j = choose|j: int| 0 <= j < cs.len() && cs[j] == child_toward(path, q);
            lemma_toward(path, q);
            assert(is_within(cs[j], q));
        } else {
            assert(mine =~= no_entries());
        }
    } else {
        assert(!reaches(cs, q)) by {
            if reaches(cs, q) {
                let j = choose|j: int| 0 <= j < cs.len() && #[trigger] is_within(cs[j], q);
                lemma_toward_unique(path, cs[j], q);
            }
        }
        assert(no_entries() + no_entries() =~= no_entries());
    }
}

/// Parsing the folder nodes of the subfolders `cs` of `parent` gives, for
/// every folder `q` that is one of them or lies inside one, the entries of
/// the bookmarks of `q` in order, and nothing for any other folder.
proof fn lemma_forest_entries(
    bms: Seq<BookmarkView>,
    paths: Seq<Seq<char>>,
    parent: Seq<char>,
    cs: Seq<Seq<char>>,
    start: int,
    q: Seq<char>,
)
    requires
        parent.len() <= max_len(paths),
        all_children(paths, parent, cs),
        cs.no_duplicates(),
        covers(bms, paths),
    ensures
        entries_by(
            flatten_list_spec(forest_spec(bms, paths, parent, cs, start).0, parent),
            folder_key(),
            q,
        ) == if reaches(cs, q) {
            entries_by(bms, folder_key(), q)
        } else {
            no_entries()
        },
    decreases max_len(paths) - parent.len(), 0int, cs.len(),
{
    reveal_strlit("url");
    reveal_strlit("folder");
    if cs.len() == 0 {
        assert(!reaches(cs, q));
        assert(entries_by(Seq::empty(), folder_key(), q) =~= no_entries());
    } else {
        let c0 = cs.drop_last();
        let c = cs.last();
        assert(all_children(paths, parent, c0)) by {
            assert forall|i: int| 0 <= i < c0.len() implies {
                &&& is_child_of(parent)(#[trigger] c0[i])
                &&& c0[i].len() <= max_len(paths)
            } by {
                assert(c0[i] == cs[i]);
            }
        }
        assert(is_child_of(parent)(cs[cs.len() - 1]));
        assert(c.len() <= max_len(paths));
        let prev = forest_spec(bms, paths, parent, c0, start);
        let kids = tree_spec(bms, paths, c, prev.1);
        let node = folder_node_spec(crate::rebuilder::child_name(parent, c), crate::rebuilder::id_of(kids.1), kids.0);
        let fs = forest_spec(bms, paths, parent, cs, start);
        assert(fs.0 == prev.0.push(node));
        assert(fs.0.drop_last() =~= prev.0);
        lemma_child_path(parent, c);
        assert(node.node_type != "url"@) by {
            assert(node.node_type.len() != "url"@.len());
        }
        assert(flatten_spec(node, parent) == flatten_list_spec(kids.0, c));
        assert(flatten_list_spec(fs.0, parent) == flatten_list_spec(prev.0, parent) + flatten_list_spec(
            kids.0,
            c,
        ));
        lemma_entries_add(flatten_list_spec(prev.0, parent), flatten_list_spec(kids.0, c), folder_key(), q);
        lemma_forest_entries(bms, paths, parent, c0, start, q);
        lemma_tree_entries(bms, paths, c, prev.1, q);
        let mine = entries_by(bms, folder_key(), q);
        if is_within(c, q) {
            assert(!reaches(c0, q)) by {
                if reaches(c0, q) {
                    let j = choose|j: int| 0 <= j < c0.len() && #[trigger] is_within(c0[j], q);
                    assert(c0[j] == cs[j]);
                    lemma_toward_unique(parent, cs[j], q);
                    lemma_toward_unique(parent, c, q);
                    assert(cs[j] == cs[cs.len() - 1]);
                }
            }
            assert(is_within(cs[cs.len() - 1], q));
            assert(reaches(cs, q));
            assert(no_entries() + mine =~= mine);
        } else {
            assert(reaches(cs, q) == reaches(c0, q)) by {
                if reaches(cs, q) {
                    let j = choose|j: int| 0 <= j < cs.len() && #[trigger] is_within(cs[j], q);
                    assert(j < cs.len() - 1);
                    assert(c0[j] == cs[j]);
                    assert(is_within(c0[j], q));
                }
                if reaches(c0, q) {
                    let j = choose|j: int| 0 <= j < c0.len() && #[trigger] is_within(c0[j], q);
                    assert(c0[j] == cs[j]);
                    assert(is_within(cs[j], q));
                }
            }
            let pe = entries_by(flatten_list_spec(prev.0, parent), folder_key(), q);
            assert(pe + no_entries() =~= pe);
        }
    }
}

/// Rewriting the file with the folder structure kept gives every bookmark
/// back in its folder: for each folder path that does not start with `/`,
/// reading the rebuilt file yields the names, URLs and dates of exactly the
/// bookmarks that were in that folder, in their order. A folder path that
/// starts with `/` names no folder that the tree can hold, and its
/// bookmarks are not written.
pub proof fn law_preserve_roundtrip(bms: Seq<BookmarkView>, q: Seq<char>)
    ensures
        entries_by(
            parse_spec(
                organized_spec(bms, OrganizeStrategy::PreserveOriginal),
                other_root_spec(bms, OrganizeStrategy::PreserveOriginal),
                None,
            ),
            folder_key(),
            q,
        )
            == if q.len() > 0 && q[0] == '/' {
            no_entries()
        } else {
            entries_by(bms, folder_key(), q)
        },
{
    reveal_strlit("url");
    reveal_strlit("folder");
    let paths = folder_paths(bms);
    let keys = keys_of(bms, folder_key());
    lemma_distinct_keys(keys);
    lemma_max_len(paths);
    assert forall|i: int| 0 <= i < bms.len() implies paths.contains(#[trigger] bms[i].folder_path) by {
        assert(keys[i] == bms[i].folder_path);
        assert(keys.contains(keys[i]));
    }
    let t = tree_spec(bms, paths, Seq::empty(), 1);
    lemma_tree_entries(bms, paths, Seq::empty(), 1, q);
    let bar = organized_spec(bms, OrganizeStrategy::PreserveOriginal);
    assert(bar.children == Some(t.0));
    let other = other_root_spec(bms, OrganizeStrategy::PreserveOriginal);
    assert(flatten_list_spec(other.children.unwrap(), Seq::empty()) =~= Seq::<BookmarkView>::empty());
    let parsed = parse_spec(bar, other, None);
    assert(parsed =~= flatten_list_spec(t.0, Seq::empty()));
}

/// Filtering twice keeps what both predicates accept.
proof fn lemma_filter_filter<A>(s: Seq<A>, p1: spec_fn(A) -> bool, p2: spec_fn(A) -> bool)
    ensures
        s.filter(p1).filter(p2) == s.filter(|x: A| p1(x) && p2(x)),
    decreases s.len(),
{
    let both = |x: A| p1(x) && p2(x);
    if s.len() == 0 {
        assert(s.filter(p1) =~= Seq::<A>::empty());
        assert(s.filter(both) =~= Seq::<A>::empty());
        assert(s.filter(p1).filter(p2) =~= Seq::<A>::empty());
    } else {
        let s0 = s.drop_last();
        let x = s.last();
        lemma_filter_filter(s0, p1, p2);
        assert(s0.push(x) =~= s);
        s0.lemma_filter_push(x, p1);
        s0.lemma_filter_push(x, both);
        s0.filter(p1).lemma_filter_push(x, p2);
    }
}

/// Predicates that agree on every element of `s` filter it alike.
proof fn lemma_filter_agree<A>(s: Seq<A>, p1: spec_fn(A) -> bool, p2: spec_fn(A) -> bool)
    requires
        forall|i: int| 0 <= i < s.len() ==> p1(#[trigger] s[i]) == p2(s[i]),
    ensures
        s.filter(p1) == s.filter(p2),
    decreases s.len(),
{
    if s.len() == 0 {
        assert(s.filter(p1) =~= Seq::<A>::empty());
        assert(s.filter(p2) =~= Seq::<A>::empty());
    } else {
        let s0 = s.drop_last();
        let x = s.last();
        assert forall|i: int| 0 <= i < s0.len() implies p1(#[trigger] s0[i]) == p2(s0[i]) by {
            assert(s0[i] == s[i]);
        }
        lemma_filter_agree(s0, p1, p2);
        assert(s0.push(x) =~= s);
        assert(p1(x) == p2(s[s.len() - 1]));
        s0.lemma_filter_push(x, p1);
        s0.lemma_filter_push(x, p2);
    }
}

/// A folder's path inside `p` tells its name.
proof fn lemma_child_path_injective(p: Seq<char>, a: Seq<char>, b: Seq<char>)
    requires
        child_path(p, a) == child_path(p, b),
    ensures
        a == b,
{
    if p.len() > 0 {
        reveal_strlit("/");
        assert((p + "/"@ + a).skip(p.len() as int + 1) =~= a);
        assert((p + "/"@ + b).skip(p.len() as int + 1) =~= b);
    }
}

/// The folder path of a bookmark's key folder inside folder `p`.
pub open spec fn under(p: Seq<char>, key: spec_fn(BookmarkView) -> Seq<char>) -> spec_fn(
    BookmarkView,
) -> Seq<char> {
    |b: BookmarkView| child_path(p, key(b))
}

/// Parsing the folders for the keys `ks` inside folder `p` gives, in the
/// folder of each key of `ks`, the entries of the bookmarks with that key
/// in order, and nothing in any other folder.
proof fn lemma_keyed_entries(
    bms: Seq<BookmarkView>,
    key: spec_fn(BookmarkView) -> Seq<char>,
    ks: Seq<Seq<char>>,
    start: int,
    p: Seq<char>,
    q: Seq<char>,
)
    requires
        ks.no_duplicates(),
    ensures
        entries_by(flatten_list_spec(keyed_folders(bms, key, ks, start), p), folder_key(), q)
            == if exists|j: int| 0 <= j < ks.len() && #[trigger] child_path(p, ks[j]) == q {
            entries_by(bms, under(p, key), q)
        } else {
            no_entries()
        },
    decreases ks.len(),
{
    reveal_strlit("url");
    reveal_strlit("folder");
    let found = exists|j: int| 0 <= j < ks.len() && #[trigger] child_path(p, ks[j]) == q;
    if ks.len() == 0 {
        assert(entries_by(Seq::empty(), folder_key(), q) =~= no_entries());
    } else {
        let k0 = ks.drop_last();
        let k = ks.last();
        lemma_keyed_entries(bms, key, k0, start, p, q);
        let s = keyed_end(bms, key, k0, start);
        let g = group_of(bms, key, k);
        let node = folder_node_spec(k, crate::rebuilder::id_of(s + g.len()), url_nodes(g, s));
        let fs = keyed_folders(bms, key, ks, start);
        assert(fs == keyed_folders(bms, key, k0, start).push(node));
        assert(fs.drop_last() =~= keyed_folders(bms, key, k0, start));
        assert(node.node_type != "url"@) by {
            assert(node.node_type.len() != "url"@.len());
        }
        let c = child_path(p, k);
        assert(flatten_spec(node, p) == flatten_list_spec(url_nodes(g, s), c));
        let pre = flatten_list_spec(keyed_folders(bms, key, k0, start), p);
        assert(flatten_list_spec(fs, p) == pre + flatten_list_spec(url_nodes(g, s), c));
        lemma_entries_add(pre, flatten_list_spec(url_nodes(g, s), c), folder_key(), q);
        lemma_url_entries(g, s, c, q);
        let pe = entries_by(pre, folder_key(), q);
        if q == c {
            let found0 = exists|j: int| 0 <= j < k0.len() && #[trigger] child_path(p, k0[j]) == q;
            assert(!found0) by {
                if found0 {
                    let j = choose|j: int| 0 <= j < k0.len() && #[trigger] child_path(p, k0[j]) == q;
                    lemma_child_path_injective(p, k0[j], k);
                    assert(ks[j] == ks[ks.len() - 1]);
                }
            }
            assert(child_path(p, ks[ks.len() - 1]) == q);
            assert(has_key(key, k) =~= has_key(under(p, key), q)) by {
                assert forall|b: BookmarkView| #[trigger] has_key(key, k)(b) == has_key(under(p, key), q)(b) by {
                    if child_path(p, key(b)) == q {
                        lemma_child_path_injective(p, key(b), k);
                    }
                }
            }
            assert(g.map_values(entry_fn()) == entries_by(bms, under(p, key), q));
            assert(no_entries() + g.map_values(entry_fn()) =~= g.map_values(entry_fn()));
        } else {
            let found0 = exists|j: int| 0 <= j < k0.len() && #[trigger] child_path(p, k0[j]) == q;
            assert(found == found0) by {
                if found {
                    let j = choose|j: int| 0 <= j < ks.len() && #[trigger] child_path(p, ks[j]) == q;
                    assert(j < ks.len() - 1);
                    assert(child_path(p, k0[j]) == q);
                }
                if found0 {
                    let j = choose|j: int| 0 <= j < k0.len() && #[trigger] child_path(p, k0[j]) == q;
                    assert(child_path(p, ks[j]) == q);
                }
            }
            assert(pe + no_entries() =~= pe);
        }
    }
}

/// Parsing the folders for all keys of `bms` inside folder `p` gives, in
/// every folder, the entries of the bookmarks whose key folder it is, in
/// order.
proof fn lemma_keyed_parse(
    bms: Seq<BookmarkView>,
    key: spec_fn(BookmarkView) -> Seq<char>,
    start: int,
    p: Seq<char>,
    q: Seq<char>,
)
    ensures
        entries_by(
            flatten_list_spec(keyed_folders(bms, key, sorted_keys(bms, key), start), p),
            folder_key(),
            q,
        ) == entries_by(bms, under(p, key), q),
{
    let keys = keys_of(bms, key);
    let ks = sorted_keys(bms, key);
    lemma_distinct_keys(keys);
    lemma_sorted_distinct(distinct_keys(keys));
    lemma_keyed_entries(bms, key, ks, start, p, q);
    if !(exists|j: int| 0 <= j < ks.len() && #[trigger] child_path(p, ks[j]) == q) {
        let mine = entries_by(bms, under(p, key), q);
        if mine.len() > 0 {
            lemma_entries_witness(bms, under(p, key), q);
            let i = choose|i: int| 0 <= i < bms.len() && under(p, key)(#[trigger] bms[i]) == q;
            assert(keys[i] == key(bms[i]));
            assert(keys.contains(key(bms[i])));
            assert(ks.contains(key(bms[i])));
            let j = choose|j: int| 0 <= j < ks.len() && ks[j] == key(bms[i]);
            assert(child_path(p, ks[j]) == q);
        }
        assert(mine =~= no_entries());
    }
}

/// The grouping key of a grouping strategy: the root domain for
/// root-domain organization, the domain otherwise.
pub open spec fn strategy_key(strategy: OrganizeStrategy) -> spec_fn(BookmarkView) -> Seq<char> {
    match strategy {
        OrganizeStrategy::ByRootDomain => root_domain_key(),
        _ => domain_key(),
    }
}

/// Rewriting the file organized by domain (or root domain) puts every
/// bookmark in the folder of its domain (or root domain): reading the
/// rebuilt file yields, in the folder named `q`, the names, URLs and dates
/// of exactly the bookmarks whose grouping key is `q`, in their order.
pub proof fn law_domain_roundtrip(bms: Seq<BookmarkView>, strategy: OrganizeStrategy, q: Seq<char>)
    requires
        strategy is ByDomain || strategy is ByRootDomain,
    ensures
        entries_by(
            parse_spec(organized_spec(bms, strategy), other_root_spec(bms, strategy), None),
            folder_key(),
            q,
        )
            == entries_by(bms, strategy_key(strategy), q),
{
    reveal_strlit("url");
    reveal_strlit("folder");
    let key = strategy_key(strategy);
    let ks = sorted_keys(bms, key);
    lemma_keyed_parse(bms, key, 1, Seq::empty(), q);
    assert(under(Seq::empty(), key) =~= key);
    let bar = organized_spec(bms, strategy);
    assert(bar == by_key_spec(bms, key));
    let other = other_root_spec(bms, strategy);
    assert(flatten_list_spec(other.children.unwrap(), Seq::empty()) =~= Seq::<BookmarkView>::empty());
    let parsed = parse_spec(bar, other, None);
    assert(parsed =~= flatten_list_spec(keyed_folders(bms, key, ks, 1), Seq::empty()));
}

/// The folder path of a bookmark under topic organization: its domain
/// folder inside its topic folder.
pub open spec fn topic_domain_key() -> spec_fn(BookmarkView) -> Seq<char> {
    |b: BookmarkView| child_path(topic_key()(b), b.domain)
}

/// The topic folder that folder path `q` lies in, when topic and domain
/// names hold no `/`: what comes before the first `/`, or nothing.
pub open spec fn topic_part(q: Seq<char>) -> Seq<char> {
    if seg_len(q) < q.len() {
        q.take(seg_len(q) as int)
    } else {
        Seq::empty()
    }
}

/// Topic and domain names without `/` can be read back from the path of
/// the domain folder inside the topic folder.
proof fn lemma_topic_part(t: Seq<char>, d: Seq<char>)
    requires
        !t.contains('/'),
        !d.contains('/'),
    ensures
        topic_part(child_path(t, d)) == t,
{
    reveal_strlit("/");
    let q = child_path(t, d);
    if t.len() == 0 {
        assert forall|j: int| 0 <= j < d.len() implies d[j] != '/' by {
            if d[j] == '/' {
                assert(d.contains('/'));
            }
        }
        lemma_seg_len_at(d, d.len() as int);
    } else {
        assert(q =~= t + "/"@ + d);
        assert forall|j: int| 0 <= j < t.len() implies q[j] != '/' by {
            assert(q[j] == t[j]);
            if t[j] == '/' {
                assert(t.contains('/'));
            }
        }
        assert(q[t.len() as int] == '/');
        lemma_seg_len_at(q, t.len() as int);
        assert(q.take(t.len() as int) =~= t);
    }
}

/// Whether the topic and the domain of every bookmark of `bms` are free of
/// `/`.
pub open spec fn plain_names(bms: Seq<BookmarkView>) -> bool {
    forall|i: int|
        0 <= i < bms.len() ==> !(#[trigger] topic_key()(bms[i])).contains('/') && !bms[i].domain.contains('/')
}

/// The domain folders of one topic, parsed inside the topic folder `t`,
/// give the entries of the bookmarks filed under path `q`, where `t` is the
/// topic part of `q`, and nothing otherwise.
proof fn lemma_topic_group_entries(bms: Seq<BookmarkView>, t: Seq<char>, start: int, q: Seq<char>)
    requires
        plain_names(bms),
    ensures
        entries_by(
            flatten_list_spec(
                keyed_folders(
                    group_of(bms, topic_key(), t),
                    domain_key(),
                    sorted_keys(group_of(bms, topic_key(), t), domain_key()),
                    start,
                ),
                t,
            ),
            folder_key(),
            q,
        ) == if t == topic_part(q) {
            entries_by(bms, topic_domain_key(), q)
        } else {
            no_entries()
        },
{
    let g = group_of(bms, topic_key(), t);
    lemma_keyed_parse(g, domain_key(), start, t, q);
    let p1 = has_key(topic_key(), t);
    let p2 = has_key(under(t, domain_key()), q);
    lemma_filter_filter(bms, p1, p2);
    let both = |x: BookmarkView| p1(x) && p2(x);
    if t == topic_part(q) {
        assert forall|i: int| 0 <= i < bms.len() implies both(#[trigger] bms[i]) == has_key(
            topic_domain_key(),
            q,
        )(bms[i]) by {
            if child_path(topic_key()(bms[i]), bms[i].domain) == q {
                lemma_topic_part(topic_key()(bms[i]), bms[i].domain);
            }
        }
        lemma_filter_agree(bms, both, has_key(topic_domain_key(), q));
    } else {
        assert forall|i: int| 0 <= i < bms.len() implies !both(#[trigger] bms[i]) by {
            if both(bms[i]) {
                lemma_topic_part(topic_key()(bms[i]), bms[i].domain);
            }
        }
        lemma_filter_none(bms, both);
        assert(entries_by(g, under(t, domain_key()), q) =~= no_entries());
    }
}

/// Parsing the topic folders for `ts` gives the entries of the bookmarks
/// filed under path `q` where its topic part is one of `ts`, and nothing
/// otherwise.
proof fn lemma_topic_entries(bms: Seq<BookmarkView>, ts: Seq<Seq<char>>, start: int, q: Seq<char>)
    requires
        plain_names(bms),
        ts.no_duplicates(),
    ensures
        entries_by(flatten_list_spec(topic_folders(bms, ts, start), Seq::empty()), folder_key(), q)
            == if ts.contains(topic_part(q)) {
            entries_by(bms, topic_domain_key(), q)
        } else {
            no_entries()
        },
    decreases ts.len(),
{
    reveal_strlit("url");
    reveal_strlit("folder");
    if ts.len() == 0 {
        assert(entries_by(Seq::empty(), folder_key(), q) =~= no_entries());
    } else {
        let t0 = ts.drop_last();
        let t = ts.last();
        lemma_topic_entries(bms, t0, start, q);
        let s = topics_end(bms, t0, start);
        let g = group_of(bms, topic_key(), t);
        let ds = sorted_keys(g, domain_key());
        let node = folder_node_spec(
            t,
            crate::rebuilder::id_of(keyed_end(g, domain_key(), ds, s)),
            keyed_folders(g, domain_key(), ds, s),
        );
        let fs = topic_folders(bms, ts, start);
        assert(fs == topic_folders(bms, t0, start).push(node));
        assert(fs.drop_last() =~= topic_folders(bms, t0, start));
        assert(node.node_type != "url"@) by {
            assert(node.node_type.len() != "url"@.len());
        }
        assert(child_path(Seq::empty(), t) == t);
        assert(flatten_spec(node, Seq::empty()) == flatten_list_spec(keyed_folders(g, domain_key(), ds, s), t));
        let pre = flatten_list_spec(topic_folders(bms, t0, start), Seq::empty());
        let mine = flatten_list_spec(keyed_folders(g, domain_key(), ds, s), t);
        assert(flatten_list_spec(fs, Seq::empty()) == pre + mine);
        lemma_entries_add(pre, mine, folder_key(), q);
        lemma_topic_group_entries(bms, t, s, q);
        let pe = entries_by(pre, folder_key(), q);
        let all = entries_by(bms, topic_domain_key(), q);
        if t == topic_part(q) {
            assert(!t0.contains(t)) by {
                if t0.contains(t) {
                    let j = choose|j: int| 0 <= j < t0.len() && t0[j] == t;
                    assert(ts[j] == ts[ts.len() - 1]);
                }
            }
            assert(ts.contains(t)) by {
                assert(ts[ts.len() - 1] == t);
            }
            assert(no_entries() + all =~= all);
        } else {
            assert(ts.contains(topic_part(q)) == t0.contains(topic_part(q))) by {
                if ts.contains(topic_part(q)) {
                    let j = choose|j: int| 0 <= j < ts.len() && ts[j] == topic_part(q);
                    assert(t0[j] == topic_part(q));
                }
                if t0.contains(topic_part(q)) {
                    let j = choose|j: int| 0 <= j < t0.len() && t0[j] == topic_part(q);
                    assert(ts[j] == topic_part(q));
                }
            }
            assert(pe + no_entries() =~= pe);
        }
    }
}

/// Rewriting the file organized by topic puts every bookmark in the folder
/// of its domain inside the folder of its topic: where no topic and no
/// domain holds a `/`, reading the rebuilt file yields, in the folder path
/// `q`, the names, URLs and dates of exactly the bookmarks whose topic and
/// domain folders make up `q`, in their order.
pub proof fn law_topic_roundtrip(bms: Seq<BookmarkView>, q: Seq<char>)
    requires
        plain_names(bms),
    ensures
        entries_by(
            parse_spec(
                organized_spec(bms, OrganizeStrategy::ByTopic),
                other_root_spec(bms, OrganizeStrategy::ByTopic),
                None,
            ),
            folder_key(),
            q,
        ) == entries_by(bms, topic_domain_key(), q),
{
    reveal_strlit("url");
    reveal_strlit("folder");
    let keys = keys_of(bms, topic_key());
    let ts = sorted_keys(bms, topic_key());
    lemma_distinct_keys(keys);
    lemma_sorted_distinct(distinct_keys(keys));
    lemma_topic_entries(bms, ts, 1, q);
    if !ts.contains(topic_part(q)) {
        let all = entries_by(bms, topic_domain_key(), q);
        if all.len() > 0 {
            lemma_entries_witness(bms, topic_domain_key(), q);
            let i = choose|i: int| 0 <= i < bms.len() && topic_domain_key()(#[trigger] bms[i]) == q;
            lemma_topic_part(topic_key()(bms[i]), bms[i].domain);
            assert(keys[i] == topic_key()(bms[i]));
            assert(keys.contains(keys[i]));
            assert(ts.contains(keys[i]));
        }
        assert(all =~= no_entries());
    }
    let bar = organized_spec(bms, OrganizeStrategy::ByTopic);
    let other = other_root_spec(bms, OrganizeStrategy::ByTopic);
    assert(flatten_list_spec(other.children.unwrap(), Seq::empty()) =~= Seq::<BookmarkView>::empty());
    let parsed = parse_spec(bar, other, None);
    assert(parsed =~= flatten_list_spec(topic_folders(bms, ts, 1), Seq::empty()));
}


/// What a bookmark keeps through a rewrite apart from its identifier and
/// topic: name, URL, normalized URL, domain, folder path and dates.
pub open spec fn record_of(b: BookmarkView) -> (
    Seq<char>,
    Seq<char>,
    Seq<char>,
    Seq<char>,
    Seq<char>,
    Option<Seq<char>>,
    Option<Seq<char>>,
) {
    (b.name, b.url, b.normalized_url, b.domain, b.folder_path, b.date_added, b.date_last_used)
}

/// The predicate "has record `x`".
pub open spec fn has_record(
    x: (Seq<char>, Seq<char>, Seq<char>, Seq<char>, Seq<char>, Option<Seq<char>>, Option<Seq<char>>),
) -> spec_fn(BookmarkView) -> bool {
    |b: BookmarkView| record_of(b) == x
}

/// Whether a bookmark's normalized URL and domain are those of its URL, as
/// parsing sets them.
pub open spec fn derived(b: BookmarkView) -> bool {
    b.normalized_url == spec_normalize_url(b.url) && b.domain == spec_extract_domain(b.url)
}

/// Every bookmark that parsing a node yields has its normalized URL and
/// domain derived from its URL, and no topic.
proof fn lemma_flatten_derived(n: NodeView, path: Seq<char>)
    ensures
        forall|i: int|
            0 <= i < flatten_spec(n, path).len() ==> derived(#[trigger] flatten_spec(n, path)[i])
                && flatten_spec(n, path)[i].topic is None,
    decreases n,
{
    if n.node_type != "url"@ && n.node_type == "folder"@ {
        match n.children {
            Some(cs) => {
                lemma_flatten_list_derived(cs, child_path(path, n.name));
            },
            None => {},
        }
    }
}

/// Every bookmark that parsing sibling nodes yields has its normalized URL
/// and domain derived from its URL, and no topic.
proof fn lemma_flatten_list_derived(cs: Seq<NodeView>, path: Seq<char>)
    ensures
        forall|i: int|
            0 <= i < flatten_list_spec(cs, path).len() ==> derived(
                #[trigger] flatten_list_spec(cs, path)[i],
            ) && flatten_list_spec(cs, path)[i].topic is None,
    decreases cs,
{
    if cs.len() > 0 {
        lemma_flatten_list_derived(cs.drop_last(), path);
        lemma_flatten_derived(cs.last(), path);
        let a = flatten_list_spec(cs.drop_last(), path);
        let b = flatten_spec(cs.last(), path);
        assert forall|i: int| 0 <= i < (a + b).len() implies derived(#[trigger] (a + b)[i]) && (a
            + b)[i].topic is None by {
            if i < a.len() {
                assert((a + b)[i] == a[i]);
            } else {
                assert((a + b)[i] == b[i - a.len()]);
            }
        }
    }
}

/// Filtering by a value of `f` counts as many elements as filtering the
/// values of `f`.
proof fn lemma_filter_map_len<A, B>(
    s: Seq<A>,
    f: spec_fn(A) -> B,
    e: B,
    p: spec_fn(A) -> bool,
    q: spec_fn(B) -> bool,
)
    requires
        forall|a: A| #[trigger] p(a) == (f(a) == e),
        forall|y: B| #[trigger] q(y) == (y == e),
    ensures
        s.filter(p).len() == s.map_values(f).filter(q).len(),
    decreases s.len(),
{
    if s.len() == 0 {
        assert(s.filter(p) =~= Seq::<A>::empty());
        assert(s.map_values(f) =~= Seq::<B>::empty());
        assert(s.map_values(f).filter(q) =~= Seq::<B>::empty());
    } else {
        let s0 = s.drop_last();
        lemma_filter_map_len(s0, f, e, p, q);
        assert(s0.push(s.last()) =~= s);
        assert(s0.map_values(f).push(f(s.last())) =~= s.map_values(f));
        s0.lemma_filter_push(s.last(), p);
        s0.map_values(f).lemma_filter_push(f(s.last()), q);
    }
}

/// Rewriting the file with the folder structure kept and reading it again
/// gives the bookmarks back as a reordering: where every bookmark's
/// normalized URL and domain are those of its URL (as parsing sets them)
/// and no folder path starts with `/`, each record (name, URL, normalized
/// URL, domain, folder path, dates) occurs as often among the bookmarks
/// read back as among those written, and what is read back has no topic.
pub proof fn law_preserve_records(
    bms: Seq<BookmarkView>,
    x: (Seq<char>, Seq<char>, Seq<char>, Seq<char>, Seq<char>, Option<Seq<char>>, Option<Seq<char>>),
)
    requires
        forall|i: int|
            0 <= i < bms.len() ==> derived(#[trigger] bms[i]) && !(bms[i].folder_path.len() > 0
                && bms[i].folder_path[0] == '/'),
    ensures
        parse_spec(
            organized_spec(bms, OrganizeStrategy::PreserveOriginal),
            other_root_spec(bms, OrganizeStrategy::PreserveOriginal),
            None,
        ).filter(has_record(x)).len() == bms.filter(has_record(x)).len(),
        forall|i: int|
            0 <= i < parse_spec(
                organized_spec(bms, OrganizeStrategy::PreserveOriginal),
                other_root_spec(bms, OrganizeStrategy::PreserveOriginal),
                None,
            ).len() ==> (#[trigger] parse_spec(
                organized_spec(bms, OrganizeStrategy::PreserveOriginal),
                other_root_spec(bms, OrganizeStrategy::PreserveOriginal),
                None,
            )[i]).topic is None,
{
    reveal_strlit("url");
    reveal_strlit("folder");
    let paths = folder_paths(bms);
    let t = tree_spec(bms, paths, Seq::empty(), 1);
    let bar = organized_spec(bms, OrganizeStrategy::PreserveOriginal);
    let other = other_root_spec(bms, OrganizeStrategy::PreserveOriginal);
    assert(bar.children == Some(t.0));
    assert(flatten_list_spec(other.children.unwrap(), Seq::empty()) =~= Seq::<BookmarkView>::empty());
    let parsed = parse_spec(bar, other, None);
    assert(parsed =~= flatten_list_spec(t.0, Seq::empty()));
    lemma_flatten_list_derived(t.0, Seq::empty());
    let q = x.4;
    let e = (x.0, x.1, x.5, x.6);
    law_preserve_roundtrip(bms, q);
    let hk = has_key(folder_key(), q);
    let hr = has_record(x);
    let both = |b: BookmarkView| hk(b) && hr(b);
    lemma_filter_filter(parsed, hk, hr);
    lemma_filter_filter(bms, hk, hr);
    assert forall|i: int| 0 <= i < parsed.len() implies both(#[trigger] parsed[i]) == hr(parsed[i]) by {}
    assert forall|i: int| 0 <= i < bms.len() implies both(#[trigger] bms[i]) == hr(bms[i]) by {}
    lemma_filter_agree(parsed, both, hr);
    lemma_filter_agree(bms, both, hr);
    let pf = group_of(parsed, folder_key(), q);
    let bf = group_of(bms, folder_key(), q);
    let c = x.2 == spec_normalize_url(x.1) && x.3 == spec_extract_domain(x.1);
    if !c {
        assert forall|i: int| 0 <= i < parsed.len() implies !hr(#[trigger] parsed[i]) by {}
        assert forall|i: int| 0 <= i < bms.len() implies !hr(#[trigger] bms[i]) by {}
        lemma_filter_none(parsed, hr);
        lemma_filter_none(bms, hr);
    } else if q.len() > 0 && q[0] == '/' {
        assert forall|i: int| 0 <= i < bms.len() implies !hr(#[trigger] bms[i]) by {}
        lemma_filter_none(bms, hr);
        assert(pf.len() == 0) by {
            assert(entries_by(parsed, folder_key(), q).len() == 0);
        }
        assert(pf.filter(hr) =~= Seq::<BookmarkView>::empty()) by {
            lemma_filter_none(pf, hr);
        }
        assert(parsed.filter(hr) == pf.filter(hr));
    } else {
        let he = |b: BookmarkView| entry_fn()(b) == e;
        assert forall|i: int| 0 <= i < pf.len() implies hr(#[trigger] pf[i]) == he(pf[i]) by {
            parsed.lemma_filter_pred(hk, i);
            assert(pf.contains(pf[i]));
            parsed.lemma_filter_contains_rev(hk, pf[i]);
            let k = choose|k: int| 0 <= k < parsed.len() && parsed[k] == pf[i];
            assert(derived(parsed[k]));
        }
        assert forall|i: int| 0 <= i < bf.len() implies hr(#[trigger] bf[i]) == he(bf[i]) by {
            bms.lemma_filter_pred(hk, i);
            assert(bf.contains(bf[i]));
            bms.lemma_filter_contains_rev(hk, bf[i]);
            let k = choose|k: int| 0 <= k < bms.len() && bms[k] == bf[i];
            assert(derived(bms[k]));
        }
        lemma_filter_agree(pf, hr, he);
        lemma_filter_agree(bf, hr, he);
        let hy = |y: (Seq<char>, Seq<char>, Option<Seq<char>>, Option<Seq<char>>)| y == e;
        lemma_filter_map_len(pf, entry_fn(), e, he, hy);
        lemma_filter_map_len(bf, entry_fn(), e, he, hy);
        assert(pf.map_values(entry_fn()) == bf.map_values(entry_fn()));
        assert(pf.filter(he).len() == bf.filter(he).len());
        assert(parsed.filter(hr) == pf.filter(hr));
        assert(bms.filter(hr) == bf.filter(hr));
    }
}

} // verus!
