//! Duplicate bookmark detection and removal.
//!
//! Identifies bookmarks pointing to the same URL (after normalization) and
//! provides utilities to deduplicate them.
use vstd::prelude::*;
use crate::bookmark::{Bookmark, BookmarkView, bookmark_views, ref_views};
use crate::grouping::{
    distinct_keys, group_by_keys, group_of, has_key, is_grouping, keys_of, lemma_distinct_keys,
};
use crate::text::{chars_of, seq_lt, str_lt, string_of_range};

verus! {

broadcast use vstd::seq_lib::group_seq_properties;

/// The key by which duplicates are found: the normalized URL.
pub open spec fn url_key() -> spec_fn(BookmarkView) -> Seq<char> {
    |b: BookmarkView| b.normalized_url
}

/// Whether URL `k` is carried by two or more of `bms`.
pub open spec fn is_dup_key(bms: Seq<BookmarkView>) -> spec_fn(Seq<char>) -> bool {
    |k: Seq<char>| group_of(bms, url_key(), k).len() > 1
}

/// The normalized URLs carried by two or more bookmarks, in order of first
/// occurrence.
pub open spec fn dup_keys(bms: Seq<BookmarkView>) -> Seq<Seq<char>> {
    distinct_keys(keys_of(bms, url_key())).filter(is_dup_key(bms))
}

/// A group of duplicate bookmarks sharing the same normalized URL.
#[derive(Debug)]
pub struct DuplicateGroup {
    pub normalized_url: String,
    pub bookmarks: Vec<Bookmark>,
}

/// Whether `r` lists the duplicate groups of `bms`: one per URL carried by
/// two or more bookmarks, in order of first occurrence, each with all the
/// bookmarks of that URL in input order.
pub open spec fn are_duplicate_groups(r: Seq<DuplicateGroup>, bms: Seq<BookmarkView>) -> bool {
    &&& r.len() == dup_keys(bms).len()
    &&& forall|i: int|
        0 <= i < r.len() ==> {
            &&& (#[trigger] r[i]).normalized_url@ == dup_keys(bms)[i]
            &&& bookmark_views(r[i].bookmarks@) == group_of(bms, url_key(), dup_keys(bms)[i])
        }
}

fn url_keys(bookmarks: &[Bookmark]) -> (r: Vec<String>)
    ensures
        r@.len() == bookmarks@.len(),
        forall|i: int| 0 <= i < r@.len() ==> (#[trigger] r@[i])@ == url_key()(bookmarks@[i]@),
{
    let mut r: Vec<String> = Vec::new();
    let mut i: usize = 0;
    while i < bookmarks.len()
        invariant
            i <= bookmarks@.len(),
            r@.len() == i,
            forall|k: int| 0 <= k < i ==> (#[trigger] r@[k])@ == url_key()(bookmarks@[k]@),
        decreases bookmarks@.len() - i,
    {
        r.push(bookmarks[i].normalized_url.clone());
        i = i + 1;
    }
    r
}

pub(crate) fn copy_refs(v: &Vec<&Bookmark>) -> (r: Vec<Bookmark>)
    ensures
        bookmark_views(r@) == ref_views(v@),
{
    let mut r: Vec<Bookmark> = Vec::new();
    let mut i: usize = 0;
    while i < v.len()
        invariant
            i <= v@.len(),
            bookmark_views(r@) == ref_views(v@).take(i as int),
        decreases v@.len() - i,
    {
        let ghost before = bookmark_views(r@);
        let c = v[i].copy();
        assert(c@ == ref_views(v@)[i as int]);
        r.push(c);
        assert(bookmark_views(r@) =~= before.push(c@));
        assert(ref_views(v@).take(i + 1) =~= ref_views(v@).take(i as int).push(c@));
        i = i + 1;
    }
    assert(ref_views(v@).take(v@.len() as int) =~= ref_views(v@));
    r
}

/// Find all duplicate bookmarks based on normalized URL.
///
/// Returns groups of duplicates (each group has 2+ bookmarks with the same
/// URL).
pub fn find_duplicates(bookmarks: &[Bookmark]) -> (r: Vec<DuplicateGroup>)
    ensures
        are_duplicate_groups(r@, bookmark_views(bookmarks@)),
{
    let ghost bms = bookmark_views(bookmarks@);
    let keys = url_keys(bookmarks);
    let groups = group_by_keys(bookmarks, &keys, Ghost(url_key()));
    let ghost dk = distinct_keys(keys_of(bms, url_key()));
    let mut r: Vec<DuplicateGroup> = Vec::new();
    let mut i: usize = 0;
    while i < groups.len()
        invariant
            is_grouping(groups@, bms, url_key()),
            dk == distinct_keys(keys_of(bms, url_key())),
            i <= groups@.len(),
            r@.len() == dk.take(i as int).filter(is_dup_key(bms)).len(),
            forall|j: int|
                0 <= j < r@.len() ==> {
                    &&& (#[trigger] r@[j]).normalized_url@ == dk.take(i as int).filter(
                        is_dup_key(bms),
                    )[j]
                    &&& bookmark_views(r@[j].bookmarks@) == group_of(
                        bms,
                        url_key(),
                        dk.take(i as int).filter(is_dup_key(bms))[j],
                    )
                },
        decreases groups@.len() - i,
    {
        proof {
            assert(dk.take(i + 1) =~= dk.take(i as int).push(dk[i as int]));
            dk.take(i as int).lemma_filter_push(dk[i as int], is_dup_key(bms));
        }
        let ghost gi = groups@[i as int];
        assert(gi.0@ == dk[i as int]);
        if groups[i].1.len() > 1 {
            let copies = copy_refs(&groups[i].1);
            r.push(DuplicateGroup { normalized_url: groups[i].0.clone(), bookmarks: copies });
        }
        i = i + 1;
    }
    assert(dk.take(groups@.len() as int) =~= dk);
    r
}

/// The input without its later copies: each bookmark is kept unless an
/// earlier one has the same normalized URL.
pub open spec fn first_of_each(s: Seq<BookmarkView>) -> Seq<BookmarkView>
    decreases s.len(),
{
    if s.len() == 0 {
        s
    } else {
        let r = first_of_each(s.drop_last());
        if keys_of(s.drop_last(), url_key()).contains(s.last().normalized_url) {
            r
        } else {
            r.push(s.last())
        }
    }
}

/// Remove duplicates from the bookmark list, keeping the first occurrence.
///
/// "First" is determined by the order in the input list, which typically
/// reflects the order in the bookmarks file.
pub fn remove_duplicates(bookmarks: Vec<Bookmark>) -> (r: Vec<Bookmark>)
    ensures
        bookmark_views(r@) == first_of_each(bookmark_views(bookmarks@)),
{
    let ghost bms = bookmark_views(bookmarks@);
    let mut seen: Vec<String> = Vec::new();
    let mut result: Vec<Bookmark> = Vec::new();
    let mut i: usize = 0;
    while i < bookmarks.len()
        invariant
            bms == bookmark_views(bookmarks@),
            i <= bookmarks@.len(),
            seen@.len() == i,
            forall|k: int| 0 <= k < i ==> (#[trigger] seen@[k])@ == bms[k].normalized_url,
            bookmark_views(result@) == first_of_each(bms.take(i as int)),
        decreases bookmarks@.len() - i,
    {
        let ghost t = bms.take(i + 1);
        assert(t.drop_last() =~= bms.take(i as int));
        let mut j: usize = 0;
        let mut found = false;
        while j < seen.len()
            invariant
                i < bookmarks@.len(),
                bms == bookmark_views(bookmarks@),
                seen@.len() == i,
                forall|k: int| 0 <= k < i ==> (#[trigger] seen@[k])@ == bms[k].normalized_url,
                j <= i,
                found ==> keys_of(bms.take(i as int), url_key()).contains(
                    bms[i as int].normalized_url,
                ),
                !found ==> forall|k: int|
                    0 <= k < j ==> bms[k].normalized_url != bms[i as int].normalized_url,
            decreases i - j,
        {
            if seen[j] == bookmarks[i].normalized_url {
                found = true;
                assert(keys_of(bms.take(i as int), url_key())[j as int]
                    == bms[i as int].normalized_url);
            }
            j = j + 1;
        }
        if !found {
            assert(!keys_of(bms.take(i as int), url_key()).contains(bms[i as int].normalized_url))
                by {
                if keys_of(bms.take(i as int), url_key()).contains(bms[i as int].normalized_url) {
                    let k = choose|k: int|
                        0 <= k < i && keys_of(bms.take(i as int), url_key())[k]
                            == bms[i as int].normalized_url;
                    assert(bms[k].normalized_url == bms[i as int].normalized_url);
                }
            }
            result.push(bookmarks[i].copy());
            assert(bookmark_views(result@) =~= first_of_each(t));
        }
        seen.push(bookmarks[i].normalized_url.clone());
        i = i + 1;
    }
    assert(bms.take(bookmarks@.len() as int) =~= bms);
    result
}

/// A numeral without its leading zeros.
pub open spec fn strip_zeros(s: Seq<char>) -> Seq<char>
    decreases s.len(),
{
    if s.len() > 0 && s[0] == '0' {
        strip_zeros(s.drop_first())
    } else {
        s
    }
}

/// Order on decimal numerals by value: leading zeros aside, a shorter
/// numeral is smaller, and numerals of one length compare digit by digit.
pub open spec fn numeral_lt(x: Seq<char>, y: Seq<char>) -> bool {
    let a = strip_zeros(x);
    let b = strip_zeros(y);
    a.len() < b.len() || (a.len() == b.len() && seq_lt(a, b))
}

fn strip_leading_zeros(x: &str) -> (r: String)
    ensures
        r@ == strip_zeros(x@),
{
    let v = chars_of(x);
    let mut k: usize = 0;
    while k < v.len() && v[k] == '0'
        invariant
            v@ == x@,
            k <= v@.len(),
            strip_zeros(v@) == strip_zeros(v@.skip(k as int)),
        decreases v@.len() - k,
    {
        assert(v@.skip(k as int).drop_first() =~= v@.skip(k + 1));
        k = k + 1;
    }
    if k < v.len() {
        assert(v@.skip(k as int)[0] == v@[k as int]);
    } else {
        assert(v@.skip(k as int).len() == 0);
    }
    assert(v@.subrange(k as int, v@.len() as int) =~= v@.skip(k as int));
    string_of_range(&v, k, v.len())
}

fn numeral_less(x: &str, y: &str) -> (r: bool)
    ensures
        r == numeral_lt(x@, y@),
{
    let a = strip_leading_zeros(x);
    let b = strip_leading_zeros(y);
    let al = chars_of(a.as_str()).len();
    let bl = chars_of(b.as_str()).len();
    if al != bl {
        al < bl
    } else {
        str_lt(a.as_str(), b.as_str())
    }
}

/// Order on optional timestamps (Edge stores them as decimal numerals):
/// no timestamp comes before any timestamp, and timestamps compare by
/// value.
pub open spec fn opt_lt(a: Option<Seq<char>>, b: Option<Seq<char>>) -> bool {
    match (a, b) {
        (None, Some(_)) => true,
        (Some(x), Some(y)) => numeral_lt(x, y),
        _ => false,
    }
}


fn opt_str_lt(a: &Option<String>, b: &Option<String>) -> (r: bool)
    ensures
        r == opt_lt(crate::bookmark::opt_view(*a), crate::bookmark::opt_view(*b)),
{
    match (a, b) {
        (None, Some(_)) => true,
        (Some(x), Some(y)) => numeral_less(x.as_str(), y.as_str()),
        _ => false,
    }
}

/// The most recently used bookmark of a non-empty group: the first one
/// whose last-use time is not below any other's.
pub open spec fn most_recent(g: Seq<BookmarkView>) -> BookmarkView
    decreases g.len(),
{
    if g.len() <= 1 {
        g[0]
    } else {
        let m = most_recent(g.drop_last());
        if opt_lt(m.date_last_used, g.last().date_last_used) {
            g.last()
        } else {
            m
        }
    }
}

/// One bookmark per normalized URL, in order of first occurrence: the most
/// recently used of those carrying it.
pub open spec fn keep_recent_spec(bms: Seq<BookmarkView>) -> Seq<BookmarkView> {
    distinct_keys(keys_of(bms, url_key())).map_values(recent_of(bms))
}

/// The most recently used bookmark with normalized URL `k`.
pub open spec fn recent_of(bms: Seq<BookmarkView>) -> spec_fn(Seq<char>) -> BookmarkView {
    |k: Seq<char>| most_recent(group_of(bms, url_key(), k))
}

fn pick_most_recent(g: &Vec<&Bookmark>) -> (r: Bookmark)
    requires
        g@.len() > 0,
    ensures
        r@ == most_recent(ref_views(g@)),
{
    let ghost gv = ref_views(g@);
    let mut best: usize = 0;
    let mut j: usize = 1;
    while j < g.len()
        invariant
            gv == ref_views(g@),
            1 <= j <= g@.len(),
            best < j,
            gv[best as int] == most_recent(gv.take(j as int)),
        decreases g@.len() - j,
    {
        let ghost t = gv.take(j + 1);
        assert(t.drop_last() =~= gv.take(j as int));
        assert(t.last() == gv[j as int]);
        assert(t.len() > 1);
        let lt = opt_str_lt(&g[best].date_last_used, &g[j].date_last_used);
        assert(lt == opt_lt(gv[best as int].date_last_used, gv[j as int].date_last_used));
        if lt {
            best = j;
        }
        assert(gv[best as int] == most_recent(t));
        j = j + 1;
    }
    assert(gv.take(g@.len() as int) =~= gv);
    g[best].copy()
}

/// Remove duplicates, preferring bookmarks that were used more recently.
pub fn remove_duplicates_keep_recent(bookmarks: Vec<Bookmark>) -> (r: Vec<Bookmark>)
    ensures
        bookmark_views(r@) == keep_recent_spec(bookmark_views(bookmarks@)),
{
    let ghost bms = bookmark_views(bookmarks@);
    let keys = url_keys(bookmarks.as_slice());
    let groups = group_by_keys(bookmarks.as_slice(), &keys, Ghost(url_key()));
    let ghost dk = distinct_keys(keys_of(bms, url_key()));
    proof {
        lemma_groups_nonempty(bms, url_key());
    }
    let mut r: Vec<Bookmark> = Vec::new();
    let mut i: usize = 0;
    while i < groups.len()
        invariant
            is_grouping(groups@, bms, url_key()),
            dk == distinct_keys(keys_of(bms, url_key())),
            forall|k: int| 0 <= k < dk.len() ==> #[trigger] group_of(bms, url_key(), dk[k]).len() > 0,
            i <= groups@.len(),
            bookmark_views(r@) == dk.take(i as int).map_values(recent_of(bms)),
        decreases groups@.len() - i,
    {
        assert(groups@[i as int].0@ == dk[i as int]);
        assert(group_of(bms, url_key(), dk[i as int]).len() > 0);
        let b = pick_most_recent(&groups[i].1);
        let ghost before = bookmark_views(r@);
        assert(b@ == recent_of(bms)(dk[i as int]));
        r.push(b);
        assert(bookmark_views(r@) =~= before.push(b@));
        assert(dk.take(i + 1) =~= dk.take(i as int).push(dk[i as int]));
        i = i + 1;
        assert(bookmark_views(r@) =~= dk.take(i as int).map_values(recent_of(bms)));
    }
    assert(dk.take(groups@.len() as int) =~= dk);
    r
}

/// Every key that occurs has a non-empty group.
pub proof fn lemma_groups_nonempty(bms: Seq<BookmarkView>, key: spec_fn(BookmarkView) -> Seq<char>)
    ensures
        forall|k: int|
            0 <= k < distinct_keys(keys_of(bms, key)).len() ==> #[trigger] group_of(
                bms,
                key,
                distinct_keys(keys_of(bms, key))[k],
            ).len() > 0,
{
    lemma_distinct_keys(keys_of(bms, key));
    assert forall|k: int| 0 <= k < distinct_keys(keys_of(bms, key)).len() implies #[trigger] group_of(
        bms,
        key,
        distinct_keys(keys_of(bms, key))[k],
    ).len() > 0 by {
        let kk = distinct_keys(keys_of(bms, key))[k];
        assert(distinct_keys(keys_of(bms, key)).contains(kk));
        let j = choose|j: int| 0 <= j < bms.len() && keys_of(bms, key)[j] == kk;
        bms.lemma_filter_contains(has_key(key, kk), j);
    }
}

/// Statistics about duplicates.
#[derive(Debug)]
pub struct DuplicateStats {
    /// Total extra copies (not counting originals)
    pub total_duplicates: usize,
    /// Number of URLs that have duplicates
    pub unique_urls_with_dupes: usize,
    pub groups: Vec<DuplicateGroup>,
}

/// The sum of `f` over the keys `ks`.
pub open spec fn sum_over(ks: Seq<Seq<char>>, f: spec_fn(Seq<char>) -> int) -> int
    decreases ks.len(),
{
    if ks.len() == 0 {
        0
    } else {
        sum_over(ks.drop_last(), f) + f(ks.last())
    }
}

/// The number of extra copies of URL `k` among `bms`: the size of its group
/// less one.
pub open spec fn extra_of(bms: Seq<BookmarkView>) -> spec_fn(Seq<char>) -> int {
    |k: Seq<char>| group_of(bms, url_key(), k).len() - 1
}

/// The number of extra copies among the groups of the URLs `ks`.
pub open spec fn extra_copies(ks: Seq<Seq<char>>, bms: Seq<BookmarkView>) -> int {
    sum_over(ks, extra_of(bms))
}

/// Get comprehensive duplicate statistics.
pub fn get_duplicate_stats(bookmarks: &[Bookmark]) -> (r: DuplicateStats)
    ensures
        are_duplicate_groups(r.groups@, bookmark_views(bookmarks@)),
        r.unique_urls_with_dupes == dup_keys(bookmark_views(bookmarks@)).len(),
        r.total_duplicates == extra_copies(
            dup_keys(bookmark_views(bookmarks@)),
            bookmark_views(bookmarks@),
        ),
{
    let ghost bms = bookmark_views(bookmarks@);
    let groups = find_duplicates(bookmarks);
    let ghost dk = dup_keys(bms);
    proof {
        crate::laws::lemma_extra_copies_total(bms);
    }
    let n = bookmarks.len();
    let mut total: usize = 0;
    let mut i: usize = 0;
    while i < groups.len()
        invariant
            are_duplicate_groups(groups@, bms),
            dk == dup_keys(bms),
            extra_copies(dk, bms) <= bms.len(),
            bms.len() == n,
            i <= groups@.len(),
            total == extra_copies(dk.take(i as int), bms),
        decreases groups@.len() - i,
    {
        assert(dk.take(i + 1).drop_last() =~= dk.take(i as int));
        proof {
            crate::laws::lemma_dup_keys_are_dups(bms, i as int);
            crate::laws::lemma_extra_copies_prefix(dk, bms, i + 1);
        }
        assert(bookmark_views(groups@[i as int].bookmarks@).len() == groups@[i as int].bookmarks@.len());
        assert(groups@[i as int].bookmarks@.len() == group_of(bms, url_key(), dk[i as int]).len());
        assert(extra_copies(dk.take(i + 1), bms) == extra_copies(dk.take(i as int), bms)
            + extra_of(bms)(dk[i as int]));
        total = total + (groups[i].bookmarks.len() - 1);
        i = i + 1;
    }
    assert(dk.take(groups@.len() as int) =~= dk);
    DuplicateStats { total_duplicates: total, unique_urls_with_dupes: groups.len(), groups }
}

} // verus!
