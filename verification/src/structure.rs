//! The shape of the trees that the grouping strategies build: folders in
//! strictly ascending name order, none empty, each holding exactly the
//! bookmarks of its key in input order.
use vstd::prelude::*;
use crate::bookmark::{BookmarkView, NodeView};
use crate::embeddings::topic_key;
use crate::grouping::{distinct_keys, group_of, has_key, keys_of, lemma_distinct_keys};
use crate::organizer::domain_key;
use crate::rebuilder::{
    all_children, by_key_spec, by_topic_spec, child_name, child_toward, children_of, folder_key,
    folder_node_spec, folder_paths, forest_spec, id_of, is_below, is_child_of, keyed_end,
    keyed_folders, leads_to, lemma_children, lemma_max_len, lemma_toward, max_len, preserve_spec,
    sorted_keys, topic_folders, topics_end, tree_spec, url_nodes,
};
use crate::sorting::{lemma_sorted_distinct, lemma_sorted_is_sorted};
use crate::text::seq_lt;

verus! {

broadcast use vstd::seq_lib::group_seq_properties;

/// The children of a node (none for a node without a list).
pub open spec fn kids(n: NodeView) -> Seq<NodeView> {
    match n.children {
        Some(c) => c,
        None => Seq::empty(),
    }
}

/// Whether `n` is a folder holding one URL node per bookmark of `g`, in
/// order, each with the bookmark's name, URL and dates.
pub open spec fn holds_urls(n: NodeView, g: Seq<BookmarkView>) -> bool {
    &&& n.node_type == "folder"@
    &&& n.children is Some
    &&& kids(n).len() == g.len()
    &&& forall|m: int|
        0 <= m < g.len() ==> {
            &&& (#[trigger] kids(n)[m]).node_type == "url"@
            &&& kids(n)[m].name == g[m].name
            &&& kids(n)[m].url == Some(g[m].url)
            &&& kids(n)[m].children is None
            &&& kids(n)[m].date_added == g[m].date_added
            &&& kids(n)[m].date_last_used == g[m].date_last_used
        }
}

/// Whether the names of `cs` strictly ascend.
pub open spec fn names_ascend(cs: Seq<NodeView>) -> bool {
    forall|i: int, j: int| 0 <= i < j < cs.len() ==> seq_lt(#[trigger] cs[i].name, #[trigger] cs[j].name)
}

/// The keys of `bms` in order strictly ascend, each names a non-empty
/// group, and each bookmark's key is among them.
proof fn lemma_sorted_keys(bms: Seq<BookmarkView>, key: spec_fn(BookmarkView) -> Seq<char>)
    ensures
        forall|i: int, j: int|
            0 <= i < j < sorted_keys(bms, key).len() ==> seq_lt(
                #[trigger] sorted_keys(bms, key)[i],
                #[trigger] sorted_keys(bms, key)[j],
            ),
        forall|i: int|
            0 <= i < sorted_keys(bms, key).len() ==> group_of(bms, key, #[trigger] sorted_keys(bms, key)[i]).len()
                > 0,
        forall|k: int| 0 <= k < bms.len() ==> sorted_keys(bms, key).contains(key(#[trigger] bms[k])),
{
    let keys = keys_of(bms, key);
    let d = distinct_keys(keys);
    let ks = sorted_keys(bms, key);
    lemma_distinct_keys(keys);
    lemma_sorted_distinct(d);
    lemma_sorted_is_sorted(d);
    assert forall|i: int, j: int| 0 <= i < j < ks.len() implies seq_lt(
        #[trigger] ks[i],
        #[trigger] ks[j],
    ) by {
        assert(ks[i] != ks[j]);
    }
    assert forall|i: int| 0 <= i < ks.len() implies group_of(bms, key, #[trigger] ks[i]).len() > 0 by {
        assert(ks.contains(ks[i]));
        assert(d.contains(ks[i]));
        assert(keys.contains(ks[i]));
        let k = choose|k: int| 0 <= k < keys.len() && keys[k] == ks[i];
        bms.lemma_filter_contains(has_key(key, ks[i]), k);
    }
    assert forall|k: int| 0 <= k < bms.len() implies ks.contains(key(#[trigger] bms[k])) by {
        assert(keys[k] == key(bms[k]));
        assert(keys.contains(keys[k]));
        assert(d.contains(keys[k]));
    }
}

/// The URL nodes of `g` hold its bookmarks.
proof fn lemma_url_nodes_hold(name: Seq<char>, id: Seq<char>, g: Seq<BookmarkView>, s: int)
    ensures
        holds_urls(folder_node_spec(name, id, url_nodes(g, s)), g),
{
}

/// The folders for keys `ks`: one per key, in order, each named after it
/// and holding the URL nodes of its bookmarks.
proof fn lemma_keyed_at(
    bms: Seq<BookmarkView>,
    key: spec_fn(BookmarkView) -> Seq<char>,
    ks: Seq<Seq<char>>,
    s: int,
)
    ensures
        keyed_folders(bms, key, ks, s).len() == ks.len(),
        forall|i: int|
            0 <= i < ks.len() ==> (#[trigger] keyed_folders(bms, key, ks, s)[i]).name == ks[i]
                && holds_urls(keyed_folders(bms, key, ks, s)[i], group_of(bms, key, ks[i])),
    decreases ks.len(),
{
    if ks.len() > 0 {
        let k0 = ks.drop_last();
        lemma_keyed_at(bms, key, k0, s);
        let e0 = keyed_end(bms, key, k0, s);
        let g = group_of(bms, key, ks.last());
        lemma_url_nodes_hold(ks.last(), id_of(e0 + g.len()), g, e0);
        assert forall|i: int| 0 <= i < ks.len() implies (#[trigger] keyed_folders(bms, key, ks, s)[i]).name
            == ks[i] && holds_urls(keyed_folders(bms, key, ks, s)[i], group_of(bms, key, ks[i])) by {
            if i < ks.len() - 1 {
                assert(keyed_folders(bms, key, ks, s)[i] == keyed_folders(bms, key, k0, s)[i]);
                assert(k0[i] == ks[i]);
            }
        }
    }
}

/// Grouping by a key (domain or root domain) builds a folder "Organized
/// Bookmarks" whose folders have strictly ascending names, one per key
/// that occurs (every bookmark's key has its folder); each is non-empty
/// and holds, in input order, the URL nodes of exactly the bookmarks with
/// that key.
pub proof fn law_keyed_structure(bms: Seq<BookmarkView>, key: spec_fn(BookmarkView) -> Seq<char>)
    ensures
        by_key_spec(bms, key).name == "Organized Bookmarks"@,
        names_ascend(kids(by_key_spec(bms, key))),
        forall|i: int|
            0 <= i < kids(by_key_spec(bms, key)).len() ==> holds_urls(
                #[trigger] kids(by_key_spec(bms, key))[i],
                group_of(bms, key, kids(by_key_spec(bms, key))[i].name),
            ) && group_of(bms, key, kids(by_key_spec(bms, key))[i].name).len() > 0,
        forall|k: int|
            0 <= k < bms.len() ==> exists|i: int|
                0 <= i < kids(by_key_spec(bms, key)).len() && (#[trigger] kids(by_key_spec(bms, key))[i]).name
                    == key(#[trigger] bms[k]),
{
    let ks = sorted_keys(bms, key);
    let cs = kids(by_key_spec(bms, key));
    lemma_sorted_keys(bms, key);
    lemma_keyed_at(bms, key, ks, 1);
    assert(cs == keyed_folders(bms, key, ks, 1));
    assert forall|i: int, j: int| 0 <= i < j < cs.len() implies seq_lt(
        #[trigger] cs[i].name,
        #[trigger] cs[j].name,
    ) by {
        assert(seq_lt(ks[i], ks[j]));
    }
    assert forall|i: int| 0 <= i < cs.len() implies holds_urls(
        #[trigger] cs[i],
        group_of(bms, key, cs[i].name),
    ) && group_of(bms, key, cs[i].name).len() > 0 by {
        assert(group_of(bms, key, ks[i]).len() > 0);
    }
    assert forall|k: int| 0 <= k < bms.len() implies exists|i: int|
        0 <= i < cs.len() && (#[trigger] cs[i]).name == key(#[trigger] bms[k]) by {
        assert(ks.contains(key(bms[k])));
        let i = choose|i: int| 0 <= i < ks.len() && ks[i] == key(bms[k]);
        assert(cs[i].name == key(bms[k]));
    }
}

/// The topic folders for `ts`: one per topic, in order, each named after
/// it and holding the domain folders of its bookmarks.
proof fn lemma_topic_at(bms: Seq<BookmarkView>, ts: Seq<Seq<char>>, s: int)
    ensures
        topic_folders(bms, ts, s).len() == ts.len(),
        forall|i: int|
            0 <= i < ts.len() ==> (#[trigger] topic_folders(bms, ts, s)[i]).name == ts[i]
                && topic_folders(bms, ts, s)[i].node_type == "folder"@ && kids(topic_folders(bms, ts, s)[i])
                == keyed_folders(
                group_of(bms, topic_key(), ts[i]),
                domain_key(),
                sorted_keys(group_of(bms, topic_key(), ts[i]), domain_key()),
                topics_end(bms, ts.take(i), s),
            ),
    decreases ts.len(),
{
    if ts.len() > 0 {
        let t0 = ts.drop_last();
        lemma_topic_at(bms, t0, s);
        assert(ts.take(ts.len() - 1) =~= t0);
        assert forall|i: int| 0 <= i < ts.len() implies (#[trigger] topic_folders(bms, ts, s)[i]).name
            == ts[i] && topic_folders(bms, ts, s)[i].node_type == "folder"@ && kids(
            topic_folders(bms, ts, s)[i],
        ) == keyed_folders(
            group_of(bms, topic_key(), ts[i]),
            domain_key(),
            sorted_keys(group_of(bms, topic_key(), ts[i]), domain_key()),
            topics_end(bms, ts.take(i), s),
        ) by {
            if i < ts.len() - 1 {
                assert(topic_folders(bms, ts, s)[i] == topic_folders(bms, t0, s)[i]);
                assert(t0[i] == ts[i]);
                assert(t0.take(i) =~= ts.take(i));
            }
        }
    }
}

/// Organizing by topic builds a folder "Organized Bookmarks" whose topic
/// folders have strictly ascending names, one per topic that occurs
/// ("Uncategorized" for bookmarks without one); each topic folder holds
/// domain folders with strictly ascending names, one per domain among its
/// bookmarks, and each domain folder is non-empty and holds, in input
/// order, the URL nodes of exactly the bookmarks with that topic and that
/// domain. Every bookmark has the folder of its topic, and in it the
/// folder of its domain.
pub proof fn law_topic_structure(bms: Seq<BookmarkView>)
    ensures
        by_topic_spec(bms).name == "Organized Bookmarks"@,
        names_ascend(kids(by_topic_spec(bms))),
        forall|i: int|
            0 <= i < kids(by_topic_spec(bms)).len() ==> {
                let t = (#[trigger] kids(by_topic_spec(bms))[i]);
                let g = group_of(bms, topic_key(), t.name);
                &&& t.node_type == "folder"@
                &&& names_ascend(kids(t))
                &&& forall|j: int|
                    0 <= j < kids(t).len() ==> holds_urls(
                        #[trigger] kids(t)[j],
                        group_of(g, domain_key(), kids(t)[j].name),
                    ) && group_of(g, domain_key(), kids(t)[j].name).len() > 0
                &&& forall|k: int|
                    0 <= k < g.len() ==> exists|j: int|
                        0 <= j < kids(t).len() && (#[trigger] kids(t)[j]).name == (#[trigger] g[k]).domain
            },
        forall|k: int|
            0 <= k < bms.len() ==> exists|i: int|
                0 <= i < kids(by_topic_spec(bms)).len() && (#[trigger] kids(by_topic_spec(bms))[i]).name
                    == topic_key()(#[trigger] bms[k]),
{
    let ts = sorted_keys(bms, topic_key());
    let cs = kids(by_topic_spec(bms));
    lemma_sorted_keys(bms, topic_key());
    lemma_topic_at(bms, ts, 1);
    assert(cs == topic_folders(bms, ts, 1));
    assert forall|i: int, j: int| 0 <= i < j < cs.len() implies seq_lt(
        #[trigger] cs[i].name,
        #[trigger] cs[j].name,
    ) by {
        assert(seq_lt(ts[i], ts[j]));
    }
    assert forall|i: int| 0 <= i < cs.len() implies {
        let t = (#[trigger] cs[i]);
        let g = group_of(bms, topic_key(), t.name);
        &&& t.node_type == "folder"@
        &&& names_ascend(kids(t))
        &&& forall|j: int|
            0 <= j < kids(t).len() ==> holds_urls(
                #[trigger] kids(t)[j],
                group_of(g, domain_key(), kids(t)[j].name),
            ) && group_of(g, domain_key(), kids(t)[j].name).len() > 0
        &&& forall|k: int|
            0 <= k < g.len() ==> exists|j: int|
                0 <= j < kids(t).len() && (#[trigger] kids(t)[j]).name == (#[trigger] g[k]).domain
    } by {
        let t = cs[i];
        let g = group_of(bms, topic_key(), ts[i]);
        assert(t.name == ts[i]);
        let ds = sorted_keys(g, domain_key());
        let st = topics_end(bms, ts.take(i), 1);
        lemma_sorted_keys(g, domain_key());
        lemma_keyed_at(g, domain_key(), ds, st);
        let sub = kids(t);
        assert(sub == keyed_folders(g, domain_key(), ds, st));
        assert forall|a: int, b: int| 0 <= a < b < sub.len() implies seq_lt(
            #[trigger] sub[a].name,
            #[trigger] sub[b].name,
        ) by {
            assert(seq_lt(ds[a], ds[b]));
        }
        assert forall|j: int| 0 <= j < sub.len() implies holds_urls(
            #[trigger] sub[j],
            group_of(g, domain_key(), sub[j].name),
        ) && group_of(g, domain_key(), sub[j].name).len() > 0 by {
            assert(group_of(g, domain_key(), ds[j]).len() > 0);
        }
        assert forall|k: int| 0 <= k < g.len() implies exists|j: int|
            0 <= j < sub.len() && (#[trigger] sub[j]).name == (#[trigger] g[k]).domain by {
            assert(ds.contains(domain_key()(g[k])));
            let j = choose|j: int| 0 <= j < ds.len() && ds[j] == domain_key()(g[k]);
            assert(sub[j].name == g[k].domain);
        }
    }
    assert forall|k: int| 0 <= k < bms.len() implies exists|i: int|
        0 <= i < cs.len() && (#[trigger] cs[i]).name == topic_key()(#[trigger] bms[k]) by {
        assert(ts.contains(topic_key()(bms[k])));
        let i = choose|i: int| 0 <= i < ts.len() && ts[i] == topic_key()(bms[k]);
        assert(cs[i].name == topic_key()(bms[k]));
    }
}


/// Whether every folder at `n` or below it holds at least one node and
/// its subfolders' names strictly ascend.
pub open spec fn tidy_node(n: NodeView) -> bool
    decreases n,
{
    if n.node_type == "folder"@ {
        match n.children {
            Some(cs) => cs.len() > 0 && folders_ascend(cs) && tidy_list(cs),
            None => false,
        }
    } else {
        true
    }
}

/// Whether every node of `ns` is tidy.
pub open spec fn tidy_list(ns: Seq<NodeView>) -> bool
    decreases ns,
{
    if ns.len() == 0 {
        true
    } else {
        tidy_list(ns.drop_last()) && tidy_node(ns.last())
    }
}

/// Whether the folders among `ns` have strictly ascending names.
pub open spec fn folders_ascend(ns: Seq<NodeView>) -> bool {
    forall|i: int, j: int|
        0 <= i < j < ns.len() && ns[i].node_type == "folder"@ && ns[j].node_type == "folder"@
            ==> seq_lt(#[trigger] ns[i].name, #[trigger] ns[j].name)
}

/// A list is tidy exactly when each of its nodes is.
proof fn lemma_tidy_all(ns: Seq<NodeView>)
    ensures
        tidy_list(ns) <==> forall|i: int| 0 <= i < ns.len() ==> tidy_node(#[trigger] ns[i]),
    decreases ns.len(),
{
    if ns.len() > 0 {
        lemma_tidy_all(ns.drop_last());
        if forall|i: int| 0 <= i < ns.len() ==> tidy_node(#[trigger] ns[i]) {
            assert forall|i: int| 0 <= i < ns.drop_last().len() implies tidy_node(
                #[trigger] ns.drop_last()[i],
            ) by {
                assert(ns.drop_last()[i] == ns[i]);
            }
            assert(tidy_node(ns[ns.len() - 1]));
        }
        if tidy_list(ns) {
            assert forall|i: int| 0 <= i < ns.len() implies tidy_node(#[trigger] ns[i]) by {
                if i < ns.len() - 1 {
                    assert(ns.drop_last()[i] == ns[i]);
                }
            }
        }
    }
}

/// Dropping a common prefix keeps the order of two strings.
proof fn lemma_lt_strip(a: Seq<char>, b: Seq<char>, n: int)
    requires
        0 <= n <= a.len(),
        n <= b.len(),
        a.take(n) == b.take(n),
        seq_lt(a, b),
    ensures
        seq_lt(a.skip(n), b.skip(n)),
    decreases n,
{
    if n == 0 {
        assert(a.skip(0) =~= a);
        assert(b.skip(0) =~= b);
    } else {
        assert(a[0] == a.take(n)[0]);
        assert(b[0] == b.take(n)[0]);
        assert(a.drop_first().take(n - 1) =~= a.take(n).drop_first());
        assert(b.drop_first().take(n - 1) =~= b.take(n).drop_first());
        lemma_lt_strip(a.drop_first(), b.drop_first(), n - 1);
        assert(a.drop_first().skip(n - 1) =~= a.skip(n));
        assert(b.drop_first().skip(n - 1) =~= b.skip(n));
    }
}

/// Whether every folder path of `paths` holds a bookmark of `bms`.
pub open spec fn paths_used(bms: Seq<BookmarkView>, paths: Seq<Seq<char>>) -> bool {
    forall|p: Seq<char>| paths.contains(p) ==> #[trigger] group_of(bms, folder_key(), p).len() > 0
}

/// The subfolder folders of the preserved structure: one per subfolder, in
/// order, each a folder named after it, and all of them tidy.
proof fn lemma_forest_tidy(
    bms: Seq<BookmarkView>,
    paths: Seq<Seq<char>>,
    parent: Seq<char>,
    cs: Seq<Seq<char>>,
    start: int,
)
    requires
        parent.len() <= max_len(paths),
        all_children(paths, parent, cs),
        paths_used(bms, paths),
        forall|i: int| 0 <= i < cs.len() ==> leads_to(paths, parent, #[trigger] cs[i]),
    ensures
        forest_spec(bms, paths, parent, cs, start).0.len() == cs.len(),
        forall|i: int|
            0 <= i < cs.len() ==> (#[trigger] forest_spec(bms, paths, parent, cs, start).0[i]).node_type
                == "folder"@ && forest_spec(bms, paths, parent, cs, start).0[i].name == child_name(
                parent,
                cs[i],
            ),
        tidy_list(forest_spec(bms, paths, parent, cs, start).0),
    decreases max_len(paths) - parent.len(), 0int, cs.len(),
{
    reveal_strlit("url");
    reveal_strlit("folder");
    if cs.len() > 0 {
        let c0 = cs.drop_last();
        let c = cs.last();
        assert(all_children(paths, parent, c0)) by {
            assert forall|i: int| 0 <= i < c0.len() implies {
                &&& is_child_of(parent)(#[trigger] c0[i])
                &&& c0[i].len() <= max_len(paths)
            } by {
                assert(c0[i] == cs[i]);
            }
        }
        assert forall|i: int| 0 <= i < c0.len() implies leads_to(paths, parent, #[trigger] c0[i]) by {
            assert(c0[i] == cs[i]);
        }
        assert(is_child_of(parent)(cs[cs.len() - 1]));
        assert(leads_to(paths, parent, cs[cs.len() - 1]));
        let prev = forest_spec(bms, paths, parent, c0, start);
        lemma_forest_tidy(bms, paths, parent, c0, start);
        let kids_t = tree_spec(bms, paths, c, prev.1);
        lemma_tree_tidy(bms, paths, c, prev.1);
        // the subfolder leads to a folder with bookmarks, so it is not empty
        let p = choose|p: Seq<char>|
            paths.contains(p) && is_below(parent, p) && c == #[trigger] child_toward(parent, p);
        lemma_toward(parent, p);
        let direct = group_of(bms, folder_key(), c);
        let ccs = children_of(paths, c);
        lemma_children(paths, c);
        assert(all_children(paths, c, ccs));
        assert forall|i: int| 0 <= i < ccs.len() implies leads_to(paths, c, #[trigger] ccs[i]) by {}
        lemma_forest_tidy(bms, paths, c, ccs, prev.1 + direct.len());
        if p == c {
            assert(group_of(bms, folder_key(), p).len() > 0);
        } else {
            assert(ccs.contains(child_toward(c, p)));
        }
        assert(kids_t.0.len() > 0);
        let node = folder_node_spec(child_name(parent, c), id_of(kids_t.1), kids_t.0);
        let fs = forest_spec(bms, paths, parent, cs, start);
        assert(fs.0 == prev.0.push(node));
        assert(fs.0.drop_last() =~= prev.0);
        assert(tidy_node(node));
        assert forall|i: int| 0 <= i < cs.len() implies (#[trigger] fs.0[i]).node_type == "folder"@
            && fs.0[i].name == child_name(parent, cs[i]) by {
            if i < cs.len() - 1 {
                assert(fs.0[i] == prev.0[i]);
                assert(c0[i] == cs[i]);
            }
        }
    }
}

/// The nodes that a folder contributes to the preserved structure are
/// tidy, and the names of the subfolders among them strictly ascend.
proof fn lemma_tree_tidy(bms: Seq<BookmarkView>, paths: Seq<Seq<char>>, path: Seq<char>, start: int)
    requires
        path.len() <= max_len(paths),
        paths_used(bms, paths),
    ensures
        tidy_list(tree_spec(bms, paths, path, start).0),
        folders_ascend(tree_spec(bms, paths, path, start).0),
    decreases max_len(paths) - path.len(), 1int, 0int,
{
    reveal_strlit("url");
    reveal_strlit("folder");
    let direct = group_of(bms, folder_key(), path);
    let cs = children_of(paths, path);
    lemma_children(paths, path);
    assert forall|i: int| 0 <= i < cs.len() implies leads_to(paths, path, #[trigger] cs[i]) by {}
    let f = forest_spec(bms, paths, path, cs, start + direct.len());
    lemma_forest_tidy(bms, paths, path, cs, start + direct.len());
    let u = url_nodes(direct, start);
    let t = u + f.0;
    assert(tree_spec(bms, paths, path, start).0 == t);
    assert forall|i: int| 0 <= i < u.len() implies (#[trigger] u[i]).node_type == "url"@ by {}
    lemma_tidy_all(u);
    lemma_tidy_all(f.0);
    lemma_tidy_all(t);
    assert forall|i: int| 0 <= i < t.len() implies tidy_node(#[trigger] t[i]) by {
        if i < u.len() {
            assert(t[i] == u[i]);
            assert(u[i].node_type != "folder"@) by {
                assert(u[i].node_type.len() != "folder"@.len());
            }
        } else {
            assert(t[i] == f.0[i - u.len()]);
        }
    }
    // the subfolder paths strictly ascend, and so do their names
    let d = distinct_keys(paths.filter(crate::rebuilder::below(path)).map_values(
        crate::rebuilder::toward(path),
    ));
    lemma_sorted_distinct(d);
    lemma_sorted_is_sorted(d);
    assert forall|i: int, j: int|
        0 <= i < j < t.len() && t[i].node_type == "folder"@ && t[j].node_type == "folder"@ implies seq_lt(
        #[trigger] t[i].name,
        #[trigger] t[j].name,
    ) by {
        if i < u.len() {
            assert(t[i] == u[i]);
            assert(u[i].node_type.len() != "folder"@.len());
        }
        let a = i - u.len();
        let b = j - u.len();
        assert(t[i] == f.0[a]);
        assert(t[j] == f.0[b]);
        assert(cs[a] != cs[b]);
        assert(seq_lt(cs[a], cs[b]));
        assert(is_child_of(path)(cs[a]));
        assert(is_child_of(path)(cs[b]));
        if path.len() > 0 {
            let n = path.len() as int + 1;
            assert(cs[a].take(n) == cs[b].take(n));
            lemma_lt_strip(cs[a], cs[b], n);
        }
    }
}

/// Keeping the folder structure builds a folder "Bookmarks Bar" in which
/// no folder at any depth is empty and, in every folder, the subfolders'
/// names strictly ascend.
pub proof fn law_preserve_structure(bms: Seq<BookmarkView>)
    ensures
        preserve_spec(bms).name == "Bookmarks Bar"@,
        folders_ascend(kids(preserve_spec(bms))),
        tidy_list(kids(preserve_spec(bms))),
{
    let paths = folder_paths(bms);
    let keys = keys_of(bms, folder_key());
    lemma_distinct_keys(keys);
    lemma_max_len(paths);
    assert forall|p: Seq<char>| paths.contains(p) implies #[trigger] group_of(bms, folder_key(), p).len()
        > 0 by {
        assert(keys.contains(p));
        let k = choose|k: int| 0 <= k < keys.len() && keys[k] == p;
        bms.lemma_filter_contains(has_key(folder_key(), p), k);
    }
    lemma_tree_tidy(bms, paths, Seq::empty(), 1);
}

} // verus!
