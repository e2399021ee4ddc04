//! The identifiers of the nodes of a rebuilt file: numbered in turn,
//! children before their folder, so that no two nodes share one.
use vstd::prelude::*;
use crate::bookmark::{BookmarkView, NodeView};
use crate::embeddings::topic_key;
use crate::grouping::group_of;
use crate::organizer::{domain_key, root_domain_key};
use crate::rebuilder::{
    OrganizeStrategy, all_children, child_name, children_of, decimal,
    digit_char, folder_key, folder_node_spec, folder_paths, forest_spec, id_modulus, id_of,
    is_child_of, keyed_end, keyed_folders, lemma_children, lemma_max_len, max_len, organized_end,
    organized_spec, other_root_spec, sorted_keys, topic_folders, topics_end,
    tree_spec, url_node_spec, url_nodes,
};

verus! {

broadcast use vstd::seq_lib::group_seq_properties;

/// The identifiers of a node and everything below it, children before
/// their folder.
pub open spec fn node_ids(n: NodeView) -> Seq<Seq<char>>
    decreases n,
{
    match n.children {
        Some(cs) => list_ids(cs).push(n.id),
        None => seq![n.id],
    }
}

/// The identifiers of a list of sibling nodes and everything below them.
pub open spec fn list_ids(cs: Seq<NodeView>) -> Seq<Seq<char>>
    decreases cs,
{
    if cs.len() == 0 {
        Seq::empty()
    } else {
        list_ids(cs.drop_last()) + node_ids(cs.last())
    }
}

/// The `n` identifiers numbered from `start` on.
pub open spec fn ids_from(start: int, n: int) -> Seq<Seq<char>> {
    Seq::new(n as nat, |i: int| id_of(start + i))
}

proof fn lemma_decimal_len(n: nat)
    ensures
        decimal(n).len() >= 1,
        n >= 10 ==> decimal(n).len() >= 2,
    decreases n,
{
    if n >= 10 {
        lemma_decimal_len(n / 10);
    }
}

proof fn lemma_digit_char_injective(a: nat, b: nat)
    requires
        a < 10,
        b < 10,
        digit_char(a) == digit_char(b),
    ensures
        a == b,
{
}

/// Different numbers have different decimal representations.
pub proof fn lemma_decimal_injective(a: nat, b: nat)
    requires
        decimal(a) == decimal(b),
    ensures
        a == b,
    decreases a,
{
    lemma_decimal_len(a);
    lemma_decimal_len(b);
    if a < 10 && b < 10 {
        assert(decimal(a)[0] == digit_char(a));
        assert(decimal(b)[0] == digit_char(b));
        lemma_digit_char_injective(a, b);
    } else if a >= 10 && b >= 10 {
        let da = decimal(a);
        let db = decimal(b);
        assert(da.last() == digit_char(a % 10));
        assert(db.last() == digit_char(b % 10));
        lemma_digit_char_injective(a % 10, b % 10);
        assert(da.drop_last() == decimal(a / 10));
        assert(db.drop_last() == decimal(b / 10));
        lemma_decimal_injective(a / 10, b / 10);
        vstd::arithmetic::div_mod::lemma_fundamental_div_mod(a as int, 10);
        vstd::arithmetic::div_mod::lemma_fundamental_div_mod(b as int, 10);
    }
}

/// The identifiers issued for two different counts below 2^64 differ, so
/// successive identifiers of a generator differ until its counter wraps.
pub proof fn law_id_of_injective(j: int, k: int)
    requires
        0 <= j < id_modulus(),
        0 <= k < id_modulus(),
        j != k,
    ensures
        id_of(j) != id_of(k),
{
    vstd::arithmetic::div_mod::lemma_small_mod(j as nat, id_modulus() as nat);
    vstd::arithmetic::div_mod::lemma_small_mod(k as nat, id_modulus() as nat);
    if id_of(j) == id_of(k) {
        lemma_decimal_injective(j as nat, k as nat);
    }
}

/// Consecutive identifiers within 2^64 never repeat.
pub proof fn lemma_ids_from_distinct(start: int, n: int)
    requires
        0 <= start,
        0 <= n,
        start + n <= id_modulus(),
    ensures
        ids_from(start, n).no_duplicates(),
{
    assert forall|i: int, j: int|
        0 <= i < ids_from(start, n).len() && 0 <= j < ids_from(start, n).len() && i != j implies ids_from(
        start,
        n,
    )[i] != ids_from(start, n)[j] by {
        law_id_of_injective(start + i, start + j);
    }
}

/// Identifiers of concatenated sibling lists.
proof fn lemma_list_ids_add(a: Seq<NodeView>, b: Seq<NodeView>)
    ensures
        list_ids(a + b) == list_ids(a) + list_ids(b),
    decreases b.len(),
{
    if b.len() == 0 {
        assert(a + b =~= a);
        assert(list_ids(a) + list_ids(b) =~= list_ids(a));
    } else {
        lemma_list_ids_add(a, b.drop_last());
        assert((a + b).drop_last() =~= a + b.drop_last());
        assert((a + b).last() == b.last());
        assert(list_ids(a + b) =~= list_ids(a) + list_ids(b));
    }
}

/// Identifiers of a list with one more node.
proof fn lemma_list_ids_push(a: Seq<NodeView>, x: NodeView)
    ensures
        list_ids(a.push(x)) == list_ids(a) + node_ids(x),
{
    assert(a.push(x).drop_last() =~= a);
}

/// Joining two runs of consecutive identifiers.
proof fn lemma_ids_from_join(s: int, m: int, n: int)
    requires
        0 <= m,
        0 <= n,
    ensures
        ids_from(s, m) + ids_from(s + m, n) == ids_from(s, m + n),
{
    assert(ids_from(s, m) + ids_from(s + m, n) =~= ids_from(s, m + n));
}

/// The identifiers of a folder holding the run from `s` and numbered next.
proof fn lemma_folder_ids(name: Seq<char>, s: int, m: int, kids: Seq<NodeView>)
    requires
        0 <= m,
        list_ids(kids) == ids_from(s, m),
    ensures
        node_ids(folder_node_spec(name, id_of(s + m), kids)) == ids_from(s, m + 1),
{
    assert(ids_from(s, m).push(id_of(s + m)) =~= ids_from(s, m + 1));
}

/// URL nodes numbered from `s` carry the identifiers from `s` on.
proof fn lemma_url_ids(g: Seq<BookmarkView>, s: int)
    ensures
        list_ids(url_nodes(g, s)) == ids_from(s, g.len() as int),
    decreases g.len(),
{
    if g.len() == 0 {
        assert(url_nodes(g, s) =~= Seq::<NodeView>::empty());
        assert(ids_from(s, 0) =~= Seq::<Seq<char>>::empty());
    } else {
        lemma_url_ids(g.drop_last(), s);
        assert(url_nodes(g, s) =~= url_nodes(g.drop_last(), s).push(
            url_node_spec(g.last(), id_of(s + g.len() - 1)),
        ));
        lemma_list_ids_push(url_nodes(g.drop_last(), s), url_node_spec(g.last(), id_of(s + g.len() - 1)));
        assert(ids_from(s, g.len() - 1).push(id_of(s + g.len() - 1)) =~= ids_from(s, g.len() as int));
    }
}

/// Keyed folders numbered from `s` carry the identifiers from `s` up to
/// their end.
proof fn lemma_keyed_ids(
    bms: Seq<BookmarkView>,
    key: spec_fn(BookmarkView) -> Seq<char>,
    ks: Seq<Seq<char>>,
    s: int,
)
    ensures
        keyed_end(bms, key, ks, s) >= s,
        list_ids(keyed_folders(bms, key, ks, s)) == ids_from(s, keyed_end(bms, key, ks, s) - s),
    decreases ks.len(),
{
    if ks.len() == 0 {
        assert(ids_from(s, 0) =~= Seq::<Seq<char>>::empty());
    } else {
        let k0 = ks.drop_last();
        lemma_keyed_ids(bms, key, k0, s);
        let e0 = keyed_end(bms, key, k0, s);
        let g = group_of(bms, key, ks.last());
        lemma_url_ids(g, e0);
        lemma_folder_ids(ks.last(), e0, g.len() as int, url_nodes(g, e0));
        lemma_list_ids_push(
            keyed_folders(bms, key, k0, s),
            folder_node_spec(ks.last(), id_of(e0 + g.len()), url_nodes(g, e0)),
        );
        lemma_ids_from_join(s, e0 - s, g.len() as int + 1);
    }
}

/// Topic folders numbered from `s` carry the identifiers from `s` up to
/// their end.
proof fn lemma_topic_ids(bms: Seq<BookmarkView>, ts: Seq<Seq<char>>, s: int)
    ensures
        topics_end(bms, ts, s) >= s,
        list_ids(topic_folders(bms, ts, s)) == ids_from(s, topics_end(bms, ts, s) - s),
    decreases ts.len(),
{
    if ts.len() == 0 {
        assert(ids_from(s, 0) =~= Seq::<Seq<char>>::empty());
    } else {
        let t0 = ts.drop_last();
        lemma_topic_ids(bms, t0, s);
        let e0 = topics_end(bms, t0, s);
        let g = group_of(bms, topic_key(), ts.last());
        let ds = sorted_keys(g, domain_key());
        lemma_keyed_ids(g, domain_key(), ds, e0);
        let e1 = keyed_end(g, domain_key(), ds, e0);
        lemma_folder_ids(ts.last(), e0, e1 - e0, keyed_folders(g, domain_key(), ds, e0));
        assert(e0 + (e1 - e0) == e1);
        lemma_list_ids_push(
            topic_folders(bms, t0, s),
            folder_node_spec(ts.last(), id_of(e1), keyed_folders(g, domain_key(), ds, e0)),
        );
        lemma_ids_from_join(s, e0 - s, e1 - e0 + 1);
    }
}

/// The nodes that a folder contributes in the preserved structure carry
/// the identifiers from `start` up to the tree's next identifier.
proof fn lemma_tree_ids(bms: Seq<BookmarkView>, paths: Seq<Seq<char>>, path: Seq<char>, start: int)
    requires
        path.len() <= max_len(paths),
    ensures
        tree_spec(bms, paths, path, start).1 >= start,
        list_ids(tree_spec(bms, paths, path, start).0) == ids_from(
            start,
            tree_spec(bms, paths, path, start).1 - start,
        ),
    decreases max_len(paths) - path.len(), 1int, 0int,
{
    let direct = group_of(bms, folder_key(), path);
    let cs = children_of(paths, path);
    lemma_children(paths, path);
    let f = forest_spec(bms, paths, path, cs, start + direct.len());
    lemma_forest_ids(bms, paths, path, cs, start + direct.len());
    lemma_url_ids(direct, start);
    lemma_list_ids_add(url_nodes(direct, start), f.0);
    lemma_ids_from_join(start, direct.len() as int, f.1 - start - direct.len());
}

/// The folders for the subfolders `cs` carry the identifiers from `start`
/// up to the forest's next identifier.
proof fn lemma_forest_ids(
    bms: Seq<BookmarkView>,
    paths: Seq<Seq<char>>,
    parent: Seq<char>,
    cs: Seq<Seq<char>>,
    start: int,
)
    requires
        parent.len() <= max_len(paths),
        all_children(paths, parent, cs),
    ensures
        forest_spec(bms, paths, parent, cs, start).1 >= start,
        list_ids(forest_spec(bms, paths, parent, cs, start).0) == ids_from(
            start,
            forest_spec(bms, paths, parent, cs, start).1 - start,
        ),
    decreases max_len(paths) - parent.len(), 0int, cs.len(),
{
    if cs.len() == 0 {
        assert(ids_from(start, 0) =~= Seq::<Seq<char>>::empty());
    } else {
        let c0 = cs.drop_last();
        let c = cs.last();
        assert(all_children(paths, parent, c0)) by {
            assert forall|i: int| 0 <= i < c0.len() implies {
                &&& is_child_of(parent)(#[trigger] c0[i])
                &&& c0[i].len() <= max_len(paths)
            } by {
                assert(c0[i] == cs[i]);
            }
        }
        assert(is_child_of(parent)(cs[cs.len() - 1]));
        let prev = forest_spec(bms, paths, parent, c0, start);
        lemma_forest_ids(bms, paths, parent, c0, start);
        let kids = tree_spec(bms, paths, c, prev.1);
        lemma_tree_ids(bms, paths, c, prev.1);
        lemma_folder_ids(child_name(parent, c), prev.1, kids.1 - prev.1, kids.0);
        lemma_list_ids_push(prev.0, folder_node_spec(child_name(parent, c), id_of(kids.1), kids.0));
        lemma_ids_from_join(start, prev.1 - start, kids.1 - prev.1 + 1);
    }
}

/// The bookmark bar that any strategy builds carries the identifiers 1 up
/// to its root's, children before their folder.
pub proof fn lemma_organized_ids(bms: Seq<BookmarkView>, strategy: OrganizeStrategy)
    ensures
        organized_end(bms, strategy) >= 1,
        node_ids(organized_spec(bms, strategy)) == ids_from(1, organized_end(bms, strategy)),
{
    match strategy {
        OrganizeStrategy::ByDomain => {
            let ks = sorted_keys(bms, domain_key());
            lemma_keyed_ids(bms, domain_key(), ks, 1);
            lemma_folder_ids(
                "Organized Bookmarks"@,
                1,
                keyed_end(bms, domain_key(), ks, 1) - 1,
                keyed_folders(bms, domain_key(), ks, 1),
            );
        },
        OrganizeStrategy::ByRootDomain => {
            let ks = sorted_keys(bms, root_domain_key());
            lemma_keyed_ids(bms, root_domain_key(), ks, 1);
            lemma_folder_ids(
                "Organized Bookmarks"@,
                1,
                keyed_end(bms, root_domain_key(), ks, 1) - 1,
                keyed_folders(bms, root_domain_key(), ks, 1),
            );
        },
        OrganizeStrategy::ByTopic => {
            let ts = sorted_keys(bms, topic_key());
            lemma_topic_ids(bms, ts, 1);
            lemma_folder_ids(
                "Organized Bookmarks"@,
                1,
                topics_end(bms, ts, 1) - 1,
                topic_folders(bms, ts, 1),
            );
        },
        OrganizeStrategy::PreserveOriginal => {
            let paths = folder_paths(bms);
            lemma_max_len(paths);
            let t = tree_spec(bms, paths, Seq::empty(), 1);
            lemma_tree_ids(bms, paths, Seq::empty(), 1);
            lemma_folder_ids("Bookmarks Bar"@, 1, t.1 - 1, t.0);
        },
    }
}

/// Every node of a rebuilt file has its own identifier: the nodes of the
/// bookmark bar, children before their folder, carry 1, 2, 3, ... and the
/// "Other bookmarks" root the number after them; so, while fewer than 2^64
/// nodes are numbered, no two nodes of the file share an identifier.
pub proof fn law_file_ids(bms: Seq<BookmarkView>, strategy: OrganizeStrategy)
    ensures
        node_ids(organized_spec(bms, strategy)) + node_ids(other_root_spec(bms, strategy)) == ids_from(
            1,
            organized_end(bms, strategy) + 1,
        ),
        organized_end(bms, strategy) + 1 < id_modulus() ==> (node_ids(organized_spec(bms, strategy))
            + node_ids(other_root_spec(bms, strategy))).no_duplicates(),
{
    lemma_organized_ids(bms, strategy);
    let e = organized_end(bms, strategy);
    assert(list_ids(Seq::<NodeView>::empty()) =~= Seq::<Seq<char>>::empty());
    assert(ids_from(e + 1, 0) =~= Seq::<Seq<char>>::empty());
    lemma_folder_ids("Other bookmarks"@, e + 1, 0, Seq::empty());
    assert(ids_from(e + 1, 1) =~= node_ids(other_root_spec(bms, strategy)));
    lemma_ids_from_join(1, e, 1);
    if e + 1 < id_modulus() {
        lemma_ids_from_distinct(1, e + 1);
    }
}

} // verus!
