//! Bookmark organization by domain.
//!
//! Groups bookmarks into logical categories for easier management.
use vstd::prelude::*;
use vstd::utf8::encode_utf8;
use crate::bookmark::{Bookmark, BookmarkView, bookmark_views, ref_views};
use crate::grouping::{distinct_keys, group_by_keys, group_of, is_grouping, keys_of};
use crate::sorting::{sort_by_count, sort_desc, views_of};
use crate::text::{
    is_char, join_range, join_with, lemma_split_nonempty, split_by, split_char, str_eq, str_views, utf8_len_is,
};

verus! {

broadcast use vstd::seq_lib::group_seq_properties;

/// The key of domain grouping: the bookmark's domain.
pub open spec fn domain_key() -> spec_fn(BookmarkView) -> Seq<char> {
    |b: BookmarkView| b.domain
}

/// The key of root-domain grouping: the root of the bookmark's domain.
pub open spec fn root_domain_key() -> spec_fn(BookmarkView) -> Seq<char> {
    |b: BookmarkView| root_domain_spec(b.domain)
}

/// Group bookmarks by their domain.
///
/// Returns one entry per domain, in order of first occurrence, holding the
/// bookmarks belonging to that domain in input order.
pub fn group_by_domain(bookmarks: &[Bookmark]) -> (r: Vec<(String, Vec<&Bookmark>)>)
    ensures
        is_grouping(r@, bookmark_views(bookmarks@), domain_key()),
{
    let mut keys: Vec<String> = Vec::new();
    let mut i: usize = 0;
    while i < bookmarks.len()
        invariant
            i <= bookmarks@.len(),
            keys@.len() == i,
            forall|k: int| 0 <= k < i ==> (#[trigger] keys@[k])@ == domain_key()(bookmarks@[k]@),
        decreases bookmarks@.len() - i,
    {
        keys.push(bookmarks[i].domain.clone());
        i = i + 1;
    }
    group_by_keys(bookmarks, &keys, Ghost(domain_key()))
}

/// Statistics about domain grouping.
#[derive(Debug)]
pub struct DomainStats {
    pub domain: String,
    pub count: usize,
    /// Names of the bookmarks
    pub bookmarks: Vec<String>,
}

/// The mathematical value of [`DomainStats`].
pub struct DomainStatsView {
    pub domain: Seq<char>,
    pub count: int,
    pub bookmarks: Seq<Seq<char>>,
}

impl View for DomainStats {
    type V = DomainStatsView;

    open spec fn view(&self) -> DomainStatsView {
        DomainStatsView {
            domain: self.domain@,
            count: self.count as int,
            bookmarks: str_views(self.bookmarks@),
        }
    }
}

/// The names of a sequence of bookmarks.
pub open spec fn names_of(g: Seq<BookmarkView>) -> Seq<Seq<char>> {
    g.map_values(|b: BookmarkView| b.name)
}

/// The statistics of domain `k` among `bms`.
pub open spec fn stats_of(bms: Seq<BookmarkView>) -> spec_fn(Seq<char>) -> DomainStatsView {
    |k: Seq<char>|
        DomainStatsView {
            domain: k,
            count: group_of(bms, domain_key(), k).len() as int,
            bookmarks: names_of(group_of(bms, domain_key(), k)),
        }
}

/// The count of a statistics entry.
pub open spec fn stats_count() -> spec_fn(DomainStatsView) -> int {
    |s: DomainStatsView| s.count
}

/// The statistics of every domain of `bms`, most bookmarks first, domains
/// of equal count in order of first occurrence.
pub open spec fn domain_stats_spec(bms: Seq<BookmarkView>) -> Seq<DomainStatsView> {
    sort_desc(distinct_keys(keys_of(bms, domain_key())).map_values(stats_of(bms)), stats_count())
}

fn names_of_refs(g: &Vec<&Bookmark>) -> (r: Vec<String>)
    ensures
        str_views(r@) == names_of(ref_views(g@)),
{
    let mut r: Vec<String> = Vec::new();
    let mut i: usize = 0;
    while i < g.len()
        invariant
            i <= g@.len(),
            str_views(r@) == names_of(ref_views(g@)).take(i as int),
        decreases g@.len() - i,
    {
        let ghost before = str_views(r@);
        let nm = g[i].name.clone();
        assert(nm@ == names_of(ref_views(g@))[i as int]);
        r.push(nm);
        assert(str_views(r@) =~= before.push(nm@));
        assert(names_of(ref_views(g@)).take(i + 1) =~= names_of(ref_views(g@)).take(i as int).push(nm@));
        i = i + 1;
    }
    assert(names_of(ref_views(g@)).take(g@.len() as int) =~= names_of(ref_views(g@)));
    r
}

/// Get statistics about bookmarks grouped by domain, sorted by count
/// descending.
pub fn get_domain_stats(bookmarks: &[Bookmark]) -> (r: Vec<DomainStats>)
    ensures
        views_of(r@) == domain_stats_spec(bookmark_views(bookmarks@)),
{
    let ghost bms = bookmark_views(bookmarks@);
    let groups = group_by_domain(bookmarks);
    let ghost dk = distinct_keys(keys_of(bms, domain_key()));
    let mut pairs: Vec<(usize, DomainStats)> = Vec::new();
    let mut i: usize = 0;
    while i < groups.len()
        invariant
            is_grouping(groups@, bms, domain_key()),
            dk == distinct_keys(keys_of(bms, domain_key())),
            i <= groups@.len(),
            pairs@.len() == i,
            forall|j: int| 0 <= j < i ==> (#[trigger] pairs@[j]).0 == stats_count()(pairs@[j].1@),
            pairs@.map_values(|p: (usize, DomainStats)| p.1@) == dk.take(i as int).map_values(
                stats_of(bms),
            ),
        decreases groups@.len() - i,
    {
        let ghost before = pairs@.map_values(|p: (usize, DomainStats)| p.1@);
        assert(groups@[i as int].0@ == dk[i as int]);
        let count = groups[i].1.len();
        let st = DomainStats {
            domain: groups[i].0.clone(),
            count,
            bookmarks: names_of_refs(&groups[i].1),
        };
        assert(st@ == stats_of(bms)(dk[i as int]));
        pairs.push((count, st));
        assert(pairs@.map_values(|p: (usize, DomainStats)| p.1@) =~= before.push(
            stats_of(bms)(dk[i as int]),
        ));
        assert(dk.take(i + 1) =~= dk.take(i as int).push(dk[i as int]));
        i = i + 1;
    }
    assert(dk.take(groups@.len() as int) =~= dk);
    sort_by_count(pairs, Ghost(stats_count()))
}

/// Group bookmarks by a top-level domain category.
///
/// Simplifies domains like "www.reddit.com" and "old.reddit.com" into
/// "reddit.com".
pub fn group_by_root_domain(bookmarks: &[Bookmark]) -> (r: Vec<(String, Vec<&Bookmark>)>)
    ensures
        is_grouping(r@, bookmark_views(bookmarks@), root_domain_key()),
{
    let mut keys: Vec<String> = Vec::new();
    let mut i: usize = 0;
    while i < bookmarks.len()
        invariant
            i <= bookmarks@.len(),
            keys@.len() == i,
            forall|k: int|
                0 <= k < i ==> (#[trigger] keys@[k])@ == root_domain_key()(bookmarks@[k]@),
        decreases bookmarks@.len() - i,
    {
        keys.push(extract_root_domain(bookmarks[i].domain.as_str()));
        i = i + 1;
    }
    group_by_keys(bookmarks, &keys, Ghost(root_domain_key()))
}

/// The second-level labels under which a two-letter country code forms a
/// public suffix ("co.uk", "com.au", ...).
pub open spec fn is_common_second_level(p: Seq<char>) -> bool {
    p == "co"@ || p == "com"@ || p == "org"@ || p == "net"@ || p == "edu"@ || p == "gov"@
}

/// The root of a domain: the domain itself when it has at most two labels
/// or is exactly a name under a country-code second level
/// ("example.co.uk"), its last three labels under such a second level, and
/// its last two labels otherwise. A label is "two letters" when its UTF-8
/// encoding is two bytes long.
pub open spec fn root_domain_spec(d: Seq<char>) -> Seq<char> {
    let parts = split_by(d, is_char('.'));
    let n = parts.len();
    if n <= 2 {
        d
    } else if is_common_second_level(parts[n - 2]) && encode_utf8(parts[n - 1]).len() == 2 {
        if n >= 4 {
            join_with(parts.subrange(n - 3, n as int), '.')
        } else {
            d
        }
    } else {
        join_with(parts.subrange(n - 2, n as int), '.')
    }
}

fn common_second_level(p: &str) -> (r: bool)
    ensures
        r == is_common_second_level(p@),
{
    str_eq(p, "co") || str_eq(p, "com") || str_eq(p, "org") || str_eq(p, "net") || str_eq(
        p,
        "edu",
    ) || str_eq(p, "gov")
}

/// Extract the root domain (e.g., "reddit.com" from "www.reddit.com").
pub fn extract_root_domain(domain: &str) -> (r: String)
    ensures
        r@ == root_domain_spec(domain@),
{
    let parts = split_char(domain, '.');
    let n = parts.len();
    if n <= 2 {
        return String::from_str(domain);
    }
    assert(str_views(parts@)[n - 2] == parts@[n - 2]@);
    assert(str_views(parts@)[n - 1] == parts@[n - 1]@);
    if common_second_level(parts[n - 2].as_str()) && utf8_len_is(parts[n - 1].as_str(), 2) {
        if n >= 4 {
            join_range(&parts, n - 3, n, '.')
        } else {
            String::from_str(domain)
        }
    } else {
        join_range(&parts, n - 2, n, '.')
    }
}

/// A name with a count.
#[derive(Debug, Clone)]
pub struct NameCount {
    pub name: String,
    pub count: usize,
}

/// The mathematical value of [`NameCount`].
pub struct NameCountView {
    pub name: Seq<char>,
    pub count: int,
}

impl View for NameCount {
    type V = NameCountView;

    open spec fn view(&self) -> NameCountView {
        NameCountView { name: self.name@, count: self.count as int }
    }
}

/// The count of a name-count entry.
pub open spec fn name_count() -> spec_fn(NameCountView) -> int {
    |s: NameCountView| s.count
}

/// For a grouping key, the number of bookmarks under each distinct key,
/// most first, keys of equal count in order of first occurrence.
pub open spec fn key_counts_spec(
    bms: Seq<BookmarkView>,
    key: spec_fn(BookmarkView) -> Seq<char>,
) -> Seq<NameCountView> {
    sort_desc(
        distinct_keys(keys_of(bms, key)).map_values(
            |k: Seq<char>| NameCountView { name: k, count: group_of(bms, key, k).len() as int },
        ),
        name_count(),
    )
}

/// The number of bookmarks under each key of a grouping, most first.
pub(crate) fn count_groups(
    groups: &Vec<(String, Vec<&Bookmark>)>,
    Ghost(bms): Ghost<Seq<BookmarkView>>,
    Ghost(key): Ghost<spec_fn(BookmarkView) -> Seq<char>>,
) -> (r: Vec<NameCount>)
    requires
        is_grouping(groups@, bms, key),
    ensures
        views_of(r@) == key_counts_spec(bms, key),
{
    let ghost dk = distinct_keys(keys_of(bms, key));
    let ghost f = |k: Seq<char>| NameCountView { name: k, count: group_of(bms, key, k).len() as int };
    let mut pairs: Vec<(usize, NameCount)> = Vec::new();
    let mut i: usize = 0;
    while i < groups.len()
        invariant
            is_grouping(groups@, bms, key),
            dk == distinct_keys(keys_of(bms, key)),
            f == (|k: Seq<char>| NameCountView { name: k, count: group_of(bms, key, k).len() as int }),
            i <= groups@.len(),
            pairs@.len() == i,
            forall|j: int| 0 <= j < i ==> (#[trigger] pairs@[j]).0 == name_count()(pairs@[j].1@),
            pairs@.map_values(|p: (usize, NameCount)| p.1@) == dk.take(i as int).map_values(f),
        decreases groups@.len() - i,
    {
        let ghost before = pairs@.map_values(|p: (usize, NameCount)| p.1@);
        assert(groups@[i as int].0@ == dk[i as int]);
        let count = groups[i].1.len();
        let nc = NameCount { name: groups[i].0.clone(), count };
        assert(nc@ == f(dk[i as int]));
        pairs.push((count, nc));
        assert(pairs@.map_values(|p: (usize, NameCount)| p.1@) =~= before.push(f(dk[i as int])));
        assert(dk.take(i + 1) =~= dk.take(i as int).push(dk[i as int]));
        i = i + 1;
    }
    assert(dk.take(groups@.len() as int) =~= dk);
    sort_by_count(pairs, Ghost(name_count()))
}

/// The top-level folder of a bookmark: its folder path up to the first `/`.
pub open spec fn top_folder_key() -> spec_fn(BookmarkView) -> Seq<char> {
    |b: BookmarkView| split_by(b.folder_path, is_char('/'))[0]
}

/// The number of bookmarks under each top-level folder, most first.
pub fn top_level_folder_counts(bookmarks: &[Bookmark]) -> (r: Vec<NameCount>)
    ensures
        views_of(r@) == key_counts_spec(bookmark_views(bookmarks@), top_folder_key()),
{
    let mut keys: Vec<String> = Vec::new();
    let mut i: usize = 0;
    while i < bookmarks.len()
        invariant
            i <= bookmarks@.len(),
            keys@.len() == i,
            forall|k: int|
                0 <= k < i ==> (#[trigger] keys@[k])@ == top_folder_key()(bookmarks@[k]@),
        decreases bookmarks@.len() - i,
    {
        let parts = split_char(bookmarks[i].folder_path.as_str(), '/');
        proof {
            lemma_split_nonempty(bookmarks@[i as int].folder_path@, is_char('/'));
        }
        assert(str_views(parts@)[0] == parts@[0]@);
        keys.push(parts[0].clone());
        i = i + 1;
    }
    let groups = group_by_keys(bookmarks, &keys, Ghost(top_folder_key()));
    count_groups(&groups, Ghost(bookmark_views(bookmarks@)), Ghost(top_folder_key()))
}

/// Whether a bookmark lies in a subfolder of the top-level folder `top`:
/// its folder path has a second segment and its first segment is `top`.
pub open spec fn in_subfolder_of(top: Seq<char>) -> spec_fn(BookmarkView) -> bool {
    |b: BookmarkView|
        split_by(b.folder_path, is_char('/')).len() >= 2 && split_by(b.folder_path, is_char('/'))[0]
            == top
}

/// The subfolder of a bookmark's top-level folder that it lies in: the
/// second segment of its folder path.
pub open spec fn second_folder_key() -> spec_fn(BookmarkView) -> Seq<char> {
    |b: BookmarkView| split_by(b.folder_path, is_char('/'))[1]
}

/// For the top-level folder `top`, the number of bookmarks under each of
/// its immediate subfolders (their whole subtree), most first.
pub fn subfolder_counts(bookmarks: &[Bookmark], top: &str) -> (r: Vec<NameCount>)
    ensures
        views_of(r@) == key_counts_spec(
            bookmark_views(bookmarks@).filter(in_subfolder_of(top@)),
            second_folder_key(),
        ),
{
    let ghost bms = bookmark_views(bookmarks@);
    let ghost pred = in_subfolder_of(top@);
    let mut inside: Vec<Bookmark> = Vec::new();
    let mut keys: Vec<String> = Vec::new();
    let mut i: usize = 0;
    while i < bookmarks.len()
        invariant
            bms == bookmark_views(bookmarks@),
            pred == in_subfolder_of(top@),
            i <= bookmarks@.len(),
            bookmark_views(inside@) == bms.take(i as int).filter(pred),
            keys@.len() == inside@.len(),
            forall|k: int|
                0 <= k < keys@.len() ==> (#[trigger] keys@[k])@ == second_folder_key()(inside@[k]@),
        decreases bookmarks@.len() - i,
    {
        let ghost before = bookmark_views(inside@);
        assert(bms.take(i + 1) =~= bms.take(i as int).push(bms[i as int]));
        proof {
            bms.take(i as int).lemma_filter_push(bms[i as int], pred);
        }
        let parts = split_char(bookmarks[i].folder_path.as_str(), '/');
        if parts.len() >= 2 && str_eq(parts[0].as_str(), top) {
            assert(str_views(parts@)[0] == parts@[0]@);
            assert(str_views(parts@)[1] == parts@[1]@);
            assert(pred(bms[i as int]));
            let c = bookmarks[i].copy();
            inside.push(c);
            keys.push(parts[1].clone());
            assert(bookmark_views(inside@) =~= before.push(bms[i as int]));
        } else {
            assert(!pred(bms[i as int]));
        }
        i = i + 1;
    }
    assert(bms.take(bookmarks@.len() as int) =~= bms);
    let groups = group_by_keys(inside.as_slice(), &keys, Ghost(second_folder_key()));
    count_groups(&groups, Ghost(bookmark_views(inside@)), Ghost(second_folder_key()))
}

/// The domain statistics with at least `min_count` bookmarks, in order.
pub fn domains_with_min_count(stats: &Vec<DomainStats>, min_count: usize) -> (r: Vec<&DomainStats>)
    ensures
        r@.map_values(|s: &DomainStats| s@) == views_of(stats@).filter(
            |s: DomainStatsView| s.count >= min_count,
        ),
{
    let ghost p = |s: DomainStatsView| s.count >= min_count;
    let mut r: Vec<&DomainStats> = Vec::new();
    let mut i: usize = 0;
    while i < stats.len()
        invariant
            p == (|s: DomainStatsView| s.count >= min_count),
            i <= stats@.len(),
            r@.map_values(|s: &DomainStats| s@) == views_of(stats@).take(i as int).filter(p),
        decreases stats@.len() - i,
    {
        let ghost before = r@.map_values(|s: &DomainStats| s@);
        let ghost vs = views_of(stats@);
        assert(vs.take(i + 1) =~= vs.take(i as int).push(vs[i as int]));
        proof {
            vs.take(i as int).lemma_filter_push(vs[i as int], p);
        }
        if stats[i].count >= min_count {
            r.push(&stats[i]);
            assert(r@.map_values(|s: &DomainStats| s@) =~= before.push(vs[i as int]));
        }
        i = i + 1;
    }
    assert(views_of(stats@).take(stats@.len() as int) =~= views_of(stats@));
    r
}


/// Splitting `x` followed by a run without the separator extends the last
/// piece of `x` by that run.
proof fn lemma_split_append(x: Seq<char>, l: Seq<char>, sep: char)
    requires
        !l.contains(sep),
    ensures
        split_by(x + l, is_char(sep)) == split_by(x, is_char(sep)).update(
            split_by(x, is_char(sep)).len() - 1,
            split_by(x, is_char(sep)).last() + l,
        ),
    decreases l.len(),
{
    lemma_split_nonempty(x, is_char(sep));
    let sx = split_by(x, is_char(sep));
    if l.len() == 0 {
        assert(x + l =~= x);
        assert(sx.last() + l =~= sx.last());
        assert(sx.update(sx.len() - 1, sx.last() + l) =~= sx);
    } else {
        let l0 = l.drop_last();
        assert(!l0.contains(sep)) by {
            if l0.contains(sep) {
                let j = choose|j: int| 0 <= j < l0.len() && l0[j] == sep;
                assert(l[j] == sep);
            }
        }
        assert(l.last() != sep) by {
            assert(l.contains(l[l.len() - 1]));
        }
        lemma_split_append(x, l0, sep);
        assert((x + l).drop_last() =~= x + l0);
        assert((x + l).last() == l.last());
        let r0 = split_by(x + l0, is_char(sep));
        assert(r0.len() == sx.len());
        assert(split_by(x + l, is_char(sep)) == r0.update(r0.len() - 1, r0.last().push(l.last())));
        assert((sx.last() + l0).push(l.last()) =~= sx.last() + l);
        assert(r0.update(r0.len() - 1, r0.last().push(l.last())) =~= sx.update(
            sx.len() - 1,
            sx.last() + l,
        ));
    }
}

/// Pieces without the separator, joined by it and split again, come back.
pub(crate) proof fn lemma_split_join(ps: Seq<Seq<char>>, sep: char)
    requires
        ps.len() >= 1,
        forall|i: int| 0 <= i < ps.len() ==> !(#[trigger] ps[i]).contains(sep),
    ensures
        split_by(join_with(ps, sep), is_char(sep)) == ps,
    decreases ps.len(),
{
    if ps.len() == 1 {
        lemma_split_append(Seq::empty(), ps[0], sep);
        assert(Seq::<char>::empty() + ps[0] =~= ps[0]);
        assert(split_by(Seq::<char>::empty(), is_char(sep)) == seq![Seq::<char>::empty()]);
        assert(Seq::<char>::empty() + ps[0] =~= ps[0]);
        assert(seq![Seq::<char>::empty()].update(0, Seq::<char>::empty() + ps[0]) =~= ps);
    } else {
        let p0 = ps.drop_last();
        assert forall|i: int| 0 <= i < p0.len() implies !(#[trigger] p0[i]).contains(sep) by {
            assert(p0[i] == ps[i]);
        }
        lemma_split_join(p0, sep);
        let j0 = join_with(p0, sep);
        assert(!ps[ps.len() - 1].contains(sep));
        lemma_split_append(j0.push(sep), ps.last(), sep);
        assert(j0.push(sep).drop_last() =~= j0);
        assert(split_by(j0.push(sep), is_char(sep)) == p0.push(Seq::<char>::empty()));
        assert(Seq::<char>::empty() + ps.last() =~= ps.last());
        assert(p0.push(Seq::<char>::empty()).update(p0.len() as int, Seq::<char>::empty() + ps.last())
            =~= ps);
    }
}

/// No piece of a split holds the separator.
pub(crate) proof fn lemma_split_pieces(s: Seq<char>, sep: char)
    ensures
        forall|i: int|
            0 <= i < split_by(s, is_char(sep)).len() ==> !(#[trigger] split_by(s, is_char(sep))[i]).contains(
                sep,
            ),
    decreases s.len(),
{
    if s.len() > 0 {
        lemma_split_pieces(s.drop_last(), sep);
        lemma_split_nonempty(s.drop_last(), is_char(sep));
        let rest = split_by(s.drop_last(), is_char(sep));
        if s.last() != sep {
            let l = rest.last();
            assert(!l.contains(sep)) by {
                assert(!rest[rest.len() - 1].contains(sep));
            }
            assert(!l.push(s.last()).contains(sep)) by {
                if l.push(s.last()).contains(sep) {
                    let j = choose|j: int| 0 <= j < l.push(s.last()).len() && l.push(s.last())[j] == sep;
                    assert(j < l.len());
                    assert(l[j] == sep);
                }
            }
        }
        assert forall|i: int| 0 <= i < split_by(s, is_char(sep)).len() implies !(#[trigger] split_by(
            s,
            is_char(sep),
        )[i]).contains(sep) by {
            if i < rest.len() - 1 || (i == rest.len() - 1 && s.last() == sep) {
                assert(!rest[i].contains(sep));
            }
        }
    }
}

/// Joining the pieces of a split gives the string back.
pub(crate) proof fn lemma_join_split(s: Seq<char>, sep: char)
    ensures
        join_with(split_by(s, is_char(sep)), sep) == s,
    decreases s.len(),
{
    if s.len() > 0 {
        let s0 = s.drop_last();
        lemma_join_split(s0, sep);
        lemma_split_nonempty(s0, is_char(sep));
        let rest = split_by(s0, is_char(sep));
        if s.last() == sep {
            assert(rest.push(Seq::<char>::empty()).drop_last() =~= rest);
            assert(s0.push(sep) + Seq::<char>::empty() =~= s);
        } else {
            let r2 = rest.update(rest.len() - 1, rest.last().push(s.last()));
            if rest.len() == 1 {
                assert(s0.push(s.last()) =~= s);
            } else {
                assert(r2.drop_last() =~= rest.drop_last());
                assert(join_with(rest.drop_last(), sep).push(sep) + rest.last().push(s.last()) =~= (
                join_with(rest.drop_last(), sep).push(sep) + rest.last()).push(s.last()));
                assert(s0.push(s.last()) =~= s);
            }
        }
    }
}

/// Joining pieces is joining a prefix of them, the separator, and the rest.
proof fn lemma_join_at(ps: Seq<Seq<char>>, k: int, sep: char)
    requires
        1 <= k < ps.len(),
    ensures
        join_with(ps, sep) == join_with(ps.take(k), sep).push(sep) + join_with(ps.skip(k), sep),
    decreases ps.len(),
{
    let p0 = ps.drop_last();
    if k == ps.len() - 1 {
        assert(ps.take(k) =~= p0);
        assert(ps.skip(k) =~= seq![ps.last()]);
    } else {
        lemma_join_at(p0, k, sep);
        assert(p0.take(k) =~= ps.take(k));
        assert(ps.skip(k).drop_last() =~= p0.skip(k));
        assert(ps.skip(k).last() == ps.last());
        let a = join_with(ps.take(k), sep).push(sep);
        let b = join_with(p0.skip(k), sep);
        assert((a + b).push(sep) + ps.last() =~= a + (b.push(sep) + ps.last()));
    }
}

/// The root of a domain is a dotted suffix of it (the domain itself, or
/// what follows one of its dots), and taking the root again changes
/// nothing.
pub proof fn law_root_domain(d: Seq<char>)
    ensures
        root_domain_spec(root_domain_spec(d)) == root_domain_spec(d),
        root_domain_spec(d).len() <= d.len(),
        d.skip(d.len() - root_domain_spec(d).len()) == root_domain_spec(d),
        root_domain_spec(d).len() == d.len() || d[d.len() - root_domain_spec(d).len() - 1] == '.',
{
    let parts = split_by(d, is_char('.'));
    let n = parts.len() as int;
    lemma_split_nonempty(d, is_char('.'));
    lemma_split_pieces(d, '.');
    lemma_join_split(d, '.');
    let r = root_domain_spec(d);
    if n <= 2 {
        assert(d.skip(0) =~= d);
    } else {
        let k = if is_common_second_level(parts[n - 2]) && encode_utf8(parts[n - 1]).len() == 2 {
            if n >= 4 {
                n - 3
            } else {
                0
            }
        } else {
            n - 2
        };
        if k == 0 {
            assert(d.skip(0) =~= d);
            assert(r == d);
        } else {
            let tail = parts.skip(k);
            assert(tail =~= parts.subrange(k, n));
            assert(r == join_with(tail, '.'));
            assert forall|i: int| 0 <= i < tail.len() implies !(#[trigger] tail[i]).contains('.') by {
                assert(tail[i] == parts[k + i]);
            }
            lemma_split_join(tail, '.');
            lemma_join_at(parts, k, '.');
            let head = join_with(parts.take(k), '.').push('.');
            assert(d == head + r);
            assert(d.skip(head.len() as int) =~= r);
            assert(d[head.len() - 1] == '.');
            assert(split_by(r, is_char('.')) == tail);
            assert(tail[tail.len() - 2] == parts[n - 2]);
            assert(tail[tail.len() - 1] == parts[n - 1]);
        }
    }
}


/// Whether a label is one of the second-level names under which a country
/// code registers domains (co, com, org, net, edu, gov).
pub open spec fn country_second_level(p: Seq<char>) -> bool {
    p == seq!['c', 'o'] || p == seq!['c', 'o', 'm'] || p == seq!['o', 'r', 'g'] || p == seq![
        'n',
        'e',
        't',
    ] || p == seq!['e', 'd', 'u'] || p == seq!['g', 'o', 'v']
}

/// Which labels the root of a domain keeps. A domain of one or two labels
/// is its own root. Under a country code (a two-byte last label) after one
/// of co, com, org, net, edu, gov, the root is the last three labels (the
/// whole domain when it has only three), so "a.b.org.uk" has the root
/// "b.org.uk". Otherwise the root is the last two labels.
pub proof fn law_root_domain_labels(d: Seq<char>)
    ensures
        ({
            let parts = split_by(d, is_char('.'));
            let n = parts.len() as int;
            let cc = country_second_level(parts[n - 2]) && encode_utf8(parts[n - 1]).len() == 2;
            &&& n <= 2 ==> root_domain_spec(d) == d
            &&& n >= 3 && cc ==> split_by(root_domain_spec(d), is_char('.')) == parts.subrange(
                if n >= 4 { n - 3 } else { 0 },
                n,
            )
            &&& n >= 3 && !cc ==> split_by(root_domain_spec(d), is_char('.')) == parts.subrange(
                n - 2,
                n,
            )
        }),
{
    reveal_strlit("co");
    reveal_strlit("com");
    reveal_strlit("org");
    reveal_strlit("net");
    reveal_strlit("edu");
    reveal_strlit("gov");
    assert("co"@ =~= seq!['c', 'o']);
    assert("com"@ =~= seq!['c', 'o', 'm']);
    assert("org"@ =~= seq!['o', 'r', 'g']);
    assert("net"@ =~= seq!['n', 'e', 't']);
    assert("edu"@ =~= seq!['e', 'd', 'u']);
    assert("gov"@ =~= seq!['g', 'o', 'v']);
    let parts = split_by(d, is_char('.'));
    let n = parts.len() as int;
    lemma_split_nonempty(d, is_char('.'));
    lemma_split_pieces(d, '.');
    if n >= 3 {
        assert(country_second_level(parts[n - 2]) == is_common_second_level(parts[n - 2]));
        let k = if is_common_second_level(parts[n - 2]) && encode_utf8(parts[n - 1]).len() == 2 {
            if n >= 4 {
                n - 3
            } else {
                0
            }
        } else {
            n - 2
        };
        let tail = parts.subrange(k, n);
        assert forall|i: int| 0 <= i < tail.len() implies !(#[trigger] tail[i]).contains('.') by {
            assert(tail[i] == parts[k + i]);
        }
        lemma_split_join(tail, '.');
        if k == 0 {
            lemma_join_split(d, '.');
            assert(tail =~= parts);
        }
    }
}

} // verus!
