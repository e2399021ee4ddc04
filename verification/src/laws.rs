//! Properties of the library that relate several of its functions.
use vstd::prelude::*;
use crate::bookmark::BookmarkView;
use crate::duplicates::{
    dup_keys, extra_copies, extra_of, first_of_each, is_dup_key, keep_recent_spec, most_recent,
    numeral_lt, opt_lt, recent_of, strip_zeros, sum_over, url_key,
};
use crate::bookmark::CheckedBookmark;
use crate::deadlinks::{count_where, is_alive, is_bad, is_kept};
use crate::backup::prune_spec;
use crate::sorting::{count_pos, sort_desc, lemma_sort_desc_len};
use crate::text::{seq_lt, lemma_lt_transitive, lemma_lt_total, lemma_lt_irreflexive};
use crate::grouping::{distinct_keys, group_of, has_key, keys_of, lemma_distinct_keys};

verus! {

broadcast use vstd::seq_lib::group_seq_properties;

/// Changing `f` at one key `kx` by `d` changes its sum over distinct keys
/// by `d` where `kx` is among them, and not at all otherwise.
pub proof fn lemma_sum_over_bump(
    ks: Seq<Seq<char>>,
    f: spec_fn(Seq<char>) -> int,
    g: spec_fn(Seq<char>) -> int,
    kx: Seq<char>,
    d: int,
)
    requires
        ks.no_duplicates(),
        forall|k: Seq<char>| #[trigger] g(k) == f(k) + if k == kx { d } else { 0 },
    ensures
        sum_over(ks, g) == sum_over(ks, f) + if ks.contains(kx) { d } else { 0 },
    decreases ks.len(),
{
    if ks.len() > 0 {
        let p = ks.drop_last();
        assert(p.no_duplicates());
        lemma_sum_over_bump(p, f, g, kx, d);
        if ks.last() == kx {
            assert(!p.contains(kx)) by {
                if p.contains(kx) {
                    let j = choose|j: int| 0 <= j < p.len() && p[j] == kx;
                    assert(ks[j] == ks[ks.len() - 1]);
                }
            }
            assert(ks.contains(kx)) by {
                assert(ks[ks.len() - 1] == kx);
            }
        } else {
            assert(ks.contains(kx) == p.contains(kx)) by {
                if ks.contains(kx) {
                    let j = choose|j: int| 0 <= j < ks.len() && ks[j] == kx;
                    assert(p[j] == kx);
                }
                if p.contains(kx) {
                    let j = choose|j: int| 0 <= j < p.len() && p[j] == kx;
                    assert(ks[j] == kx);
                }
            }
        }
    }
}

/// The group sizes of the distinct keys of `bms` add up to its length.
pub proof fn lemma_group_sizes_total(bms: Seq<BookmarkView>, key: spec_fn(BookmarkView) -> Seq<char>)
    ensures
        sum_over(
            distinct_keys(keys_of(bms, key)),
            |k: Seq<char>| group_of(bms, key, k).len() as int,
        ) == bms.len(),
    decreases bms.len(),
{
    if bms.len() > 0 {
        let s = bms.drop_last();
        let x = bms.last();
        let kx = key(x);
        lemma_group_sizes_total(s, key);
        assert(keys_of(bms, key) =~= keys_of(s, key).push(kx));
        assert(keys_of(bms, key).drop_last() =~= keys_of(s, key));
        let ds = distinct_keys(keys_of(s, key));
        lemma_distinct_keys(keys_of(s, key));
        let f = |k: Seq<char>| group_of(s, key, k).len() as int;
        let g = |k: Seq<char>| group_of(bms, key, k).len() as int;
        assert(bms =~= s.push(x));
        assert forall|k: Seq<char>| #[trigger] g(k) == f(k) + if k == kx { 1int } else { 0int } by {
            s.lemma_filter_push(x, has_key(key, k));
        }
        lemma_sum_over_bump(ds, f, g, kx, 1);
        if !ds.contains(kx) {
            assert(!keys_of(s, key).contains(kx));
            assert(group_of(s, key, kx).len() == 0) by {
                if group_of(s, key, kx).len() > 0 {
                    s.lemma_filter_pred(has_key(key, kx), 0);
                    let e = group_of(s, key, kx)[0];
                    assert(has_key(key, kx)(e));
                    assert(group_of(s, key, kx).contains(e));
                    assert(s.contains(e)) by {
                        s.lemma_filter_contains_rev(has_key(key, kx), e);
                    }
                    let j = choose|j: int| 0 <= j < s.len() && s[j] == e;
                    assert(keys_of(s, key)[j] == kx);
                }
            }
            assert(distinct_keys(keys_of(bms, key)).drop_last() =~= ds);
        }
    }
}

/// Summing one less than each group size over distinct keys gives the sum
/// of the sizes less the number of keys.
proof fn lemma_extra_as_sizes(ks: Seq<Seq<char>>, bms: Seq<BookmarkView>)
    ensures
        extra_copies(ks, bms) == sum_over(
            ks,
            |k: Seq<char>| group_of(bms, url_key(), k).len() as int,
        ) - ks.len(),
    decreases ks.len(),
{
    if ks.len() > 0 {
        lemma_extra_as_sizes(ks.drop_last(), bms);
    }
}

/// Dropping the keys on which `h` is zero does not change its sum.
proof fn lemma_sum_over_filter(
    ks: Seq<Seq<char>>,
    p: spec_fn(Seq<char>) -> bool,
    h: spec_fn(Seq<char>) -> int,
)
    requires
        forall|i: int| 0 <= i < ks.len() && !p(ks[i]) ==> h(#[trigger] ks[i]) == 0,
    ensures
        sum_over(ks.filter(p), h) == sum_over(ks, h),
    decreases ks.len(),
{
    reveal(Seq::filter);
    if ks.len() > 0 {
        lemma_sum_over_filter(ks.drop_last(), p, h);
        if p(ks.last()) {
            assert(ks.filter(p).drop_last() =~= ks.drop_last().filter(p));
        }
    }
}

/// Each URL that occurs among `bms` has a group of at least one bookmark.
proof fn lemma_present_key_group(bms: Seq<BookmarkView>, k: Seq<char>)
    requires
        keys_of(bms, url_key()).contains(k),
    ensures
        group_of(bms, url_key(), k).len() >= 1,
{
    let j = choose|j: int| 0 <= j < bms.len() && keys_of(bms, url_key())[j] == k;
    bms.lemma_filter_contains(has_key(url_key(), k), j);
}

/// The extra copies over all URLs with duplicates number the bookmarks
/// less the distinct URLs.
pub proof fn lemma_extra_copies_total(bms: Seq<BookmarkView>)
    ensures
        extra_copies(dup_keys(bms), bms) == bms.len() - distinct_keys(
            keys_of(bms, url_key()),
        ).len(),
        extra_copies(dup_keys(bms), bms) <= bms.len(),
{
    let dk = distinct_keys(keys_of(bms, url_key()));
    lemma_distinct_keys(keys_of(bms, url_key()));
    assert forall|i: int| 0 <= i < dk.len() && !is_dup_key(bms)(dk[i]) implies extra_of(bms)(
        #[trigger] dk[i],
    ) == 0 by {
        assert(dk.contains(dk[i]));
        lemma_present_key_group(bms, dk[i]);
    }
    lemma_sum_over_filter(dk, is_dup_key(bms), extra_of(bms));
    lemma_extra_as_sizes(dk, bms);
    lemma_group_sizes_total(bms, url_key());
}

/// Every URL listed as duplicated has a group of two or more bookmarks.
pub proof fn lemma_dup_keys_are_dups(bms: Seq<BookmarkView>, i: int)
    requires
        0 <= i < dup_keys(bms).len(),
    ensures
        group_of(bms, url_key(), dup_keys(bms)[i]).len() > 1,
{
    let dk = distinct_keys(keys_of(bms, url_key()));
    dk.lemma_filter_pred(is_dup_key(bms), i);
}

/// The extra copies over a prefix of the duplicated URLs are no more than
/// over all of them.
pub proof fn lemma_extra_copies_prefix(ks: Seq<Seq<char>>, bms: Seq<BookmarkView>, i: int)
    requires
        0 <= i <= ks.len(),
        ks == dup_keys(bms),
    ensures
        extra_copies(ks.take(i), bms) <= extra_copies(ks, bms),
    decreases ks.len() - i,
{
    if i < ks.len() {
        lemma_extra_copies_prefix(ks, bms, i + 1);
        assert(ks.take(i + 1).drop_last() =~= ks.take(i));
        lemma_dup_keys_are_dups(bms, i);
    } else {
        assert(ks.take(i) =~= ks);
    }
}

/// Removing duplicates keeps exactly one bookmark per normalized URL, in
/// order of first occurrence: the URLs of the result are the distinct URLs
/// of the input, each once.
pub proof fn law_remove_duplicates_keys(bms: Seq<BookmarkView>)
    ensures
        keys_of(first_of_each(bms), url_key()) == distinct_keys(keys_of(bms, url_key())),
        keys_of(first_of_each(bms), url_key()).no_duplicates(),
    decreases bms.len(),
{
    lemma_distinct_keys(keys_of(bms, url_key()));
    if bms.len() > 0 {
        let s = bms.drop_last();
        let x = bms.last();
        law_remove_duplicates_keys(s);
        lemma_distinct_keys(keys_of(s, url_key()));
        assert(keys_of(bms, url_key()).drop_last() =~= keys_of(s, url_key()));
        assert(keys_of(bms, url_key()).last() == x.normalized_url);
        if !keys_of(s, url_key()).contains(x.normalized_url) {
            assert(keys_of(first_of_each(bms), url_key()) =~= keys_of(first_of_each(s), url_key()).push(
                x.normalized_url,
            ));
        }
    } else {
        assert(keys_of(first_of_each(bms), url_key()) =~= Seq::empty());
    }
}

/// Every extra copy counted in the duplicate statistics is one bookmark
/// that removing duplicates drops: what is kept and the extra copies add
/// up to the input.
pub proof fn law_kept_plus_extra_copies(bms: Seq<BookmarkView>)
    ensures
        first_of_each(bms).len() + extra_copies(dup_keys(bms), bms) == bms.len(),
{
    law_remove_duplicates_keys(bms);
    lemma_extra_copies_total(bms);
    assert(keys_of(first_of_each(bms), url_key()).len() == first_of_each(bms).len());
}

/// Order on optional timestamps is transitive.
pub proof fn lemma_opt_lt_transitive(a: Option<Seq<char>>, b: Option<Seq<char>>, c: Option<Seq<char>>)
    requires
        opt_lt(a, b),
        opt_lt(b, c),
    ensures
        opt_lt(a, c),
{
    if a is Some {
        let (x, y, z) = (strip_zeros(a->0), strip_zeros(b->0), strip_zeros(c->0));
        if x.len() == y.len() && y.len() == z.len() {
            lemma_lt_transitive(x, y, z);
        }
    }
}

/// Of two optional timestamps, one is not below the other; when neither
/// is below the other they are of equal value and compare alike with any
/// third.
pub proof fn lemma_opt_lt_total(a: Option<Seq<char>>, b: Option<Seq<char>>)
    ensures
        !(opt_lt(a, b) && opt_lt(b, a)),
        !opt_lt(a, b) && !opt_lt(b, a) ==> forall|c: Option<Seq<char>>|
            (#[trigger] opt_lt(a, c)) == opt_lt(b, c) && (#[trigger] opt_lt(c, a)) == opt_lt(c, b),
{
    if a is Some && b is Some {
        lemma_lt_total(strip_zeros(a->0), strip_zeros(b->0));
    }
}

/// The most recently used bookmark of a non-empty group belongs to it and
/// was used no earlier than any other, and strictly later than every
/// bookmark before it.
pub proof fn law_most_recent(g: Seq<BookmarkView>)
    requires
        g.len() > 0,
    ensures
        g.contains(most_recent(g)),
        forall|i: int| 0 <= i < g.len() ==> !opt_lt(most_recent(g).date_last_used, #[trigger] g[i].date_last_used),
        exists|j: int|
            0 <= j < g.len() && g[j] == most_recent(g) && forall|i: int|
                0 <= i < j ==> opt_lt(#[trigger] g[i].date_last_used, most_recent(g).date_last_used),
    decreases g.len(),
{
    if g.len() == 1 {
        assert(g[0] == most_recent(g));
        assert forall|i: int| 0 <= i < g.len() implies !opt_lt(most_recent(g).date_last_used, #[trigger] g[i].date_last_used) by {
            lemma_opt_lt_total(g[0].date_last_used, g[0].date_last_used);
        }
    } else {
        let p = g.drop_last();
        law_most_recent(p);
        let m = most_recent(p);
        let jp = choose|j: int|
            0 <= j < p.len() && p[j] == m && forall|i: int| 0 <= i < j ==> opt_lt(#[trigger] p[i].date_last_used, m.date_last_used);
        if opt_lt(m.date_last_used, g.last().date_last_used) {
            assert(g[g.len() - 1] == most_recent(g));
            assert forall|i: int| 0 <= i < g.len() implies !opt_lt(most_recent(g).date_last_used, #[trigger] g[i].date_last_used) by {
                if i < g.len() - 1 {
                    assert(g[i] == p[i]);
                    if opt_lt(g.last().date_last_used, g[i].date_last_used) {
                        lemma_opt_lt_transitive(m.date_last_used, g.last().date_last_used, g[i].date_last_used);
                    }
                } else {
                    lemma_opt_lt_total(g[i].date_last_used, g[i].date_last_used);
                }
            }
            assert forall|i: int| 0 <= i < g.len() - 1 implies opt_lt(#[trigger] g[i].date_last_used, most_recent(g).date_last_used) by {
                assert(g[i] == p[i]);
                if !opt_lt(p[i].date_last_used, m.date_last_used) {
                    lemma_opt_lt_total(p[i].date_last_used, m.date_last_used);
                    assert(!opt_lt(m.date_last_used, p[i].date_last_used));
                    assert(opt_lt(p[i].date_last_used, g.last().date_last_used) == opt_lt(
                        m.date_last_used,
                        g.last().date_last_used,
                    ));
                } else {
                    lemma_opt_lt_transitive(p[i].date_last_used, m.date_last_used, g.last().date_last_used);
                }
            }
            assert(forall|i: int| 0 <= i < g.len() - 1 ==> opt_lt(#[trigger] g[i].date_last_used, most_recent(g).date_last_used));
        } else {
            assert(most_recent(g) == m);
            assert(g[jp] == m);
            assert forall|i: int| 0 <= i < g.len() implies !opt_lt(most_recent(g).date_last_used, #[trigger] g[i].date_last_used) by {
                if i < g.len() - 1 {
                    assert(g[i] == p[i]);
                }
            }
            assert forall|i: int| 0 <= i < jp implies opt_lt(#[trigger] g[i].date_last_used, most_recent(g).date_last_used) by {
                assert(g[i] == p[i]);
            }
        }
    }
}

/// Keeping the most recent duplicate also keeps exactly one bookmark per
/// normalized URL, in order of first occurrence.
pub proof fn law_keep_recent_keys(bms: Seq<BookmarkView>)
    ensures
        keys_of(keep_recent_spec(bms), url_key()) == distinct_keys(keys_of(bms, url_key())),
{
    let dk = distinct_keys(keys_of(bms, url_key()));
    lemma_distinct_keys(keys_of(bms, url_key()));
    assert forall|i: int| 0 <= i < dk.len() implies #[trigger] keys_of(keep_recent_spec(bms), url_key())[i] == dk[i] by {
        let k = dk[i];
        assert(dk.contains(k));
        let j = choose|j: int| 0 <= j < bms.len() && keys_of(bms, url_key())[j] == k;
        bms.lemma_filter_contains(has_key(url_key(), k), j);
        let g = group_of(bms, url_key(), k);
        law_most_recent(g);
        let m = most_recent(g);
        let jm = choose|jm: int| 0 <= jm < g.len() && g[jm] == m;
        bms.lemma_filter_pred(has_key(url_key(), k), jm);
        assert(recent_of(bms)(k) == m);
    }
    assert(keys_of(keep_recent_spec(bms), url_key()) =~= dk);
}

/// Filtering by the union of two exclusive predicates counts both.
proof fn lemma_filter_count_or(
    s: Seq<CheckedBookmark>,
    p: spec_fn(CheckedBookmark) -> bool,
    q: spec_fn(CheckedBookmark) -> bool,
    pq: spec_fn(CheckedBookmark) -> bool,
)
    requires
        forall|c: CheckedBookmark| #[trigger] pq(c) == (p(c) || q(c)),
        forall|c: CheckedBookmark| !(#[trigger] p(c) && q(c)),
    ensures
        s.filter(pq).len() == s.filter(p).len() + s.filter(q).len(),
    decreases s.len(),
{
    reveal(Seq::filter);
    if s.len() > 0 {
        lemma_filter_count_or(s.drop_last(), p, q, pq);
    }
}

/// A sequence splits into the elements that satisfy a predicate and those
/// that satisfy its complement.
proof fn lemma_filter_count_split(
    s: Seq<CheckedBookmark>,
    p: spec_fn(CheckedBookmark) -> bool,
    q: spec_fn(CheckedBookmark) -> bool,
)
    requires
        forall|c: CheckedBookmark| #[trigger] q(c) == !p(c),
    ensures
        s.filter(p).len() + s.filter(q).len() == s.len(),
    decreases s.len(),
{
    reveal(Seq::filter);
    if s.len() > 0 {
        lemma_filter_count_split(s.drop_last(), p, q);
    }
}

/// The link check statistics account for every checked bookmark: the
/// dead-link filter returns the dead and the unreachable ones, the alive
/// filter the alive ones, and removing dead links keeps all the others.
pub proof fn law_link_counts(checked: Seq<CheckedBookmark>)
    ensures
        count_where(checked, |c: CheckedBookmark| is_bad(c)) == count_where(
            checked,
            |c: CheckedBookmark| c.status is Dead,
        ) + count_where(checked, |c: CheckedBookmark| c.status is Unreachable),
        count_where(checked, |c: CheckedBookmark| is_kept(c)) + count_where(
            checked,
            |c: CheckedBookmark| is_bad(c),
        ) == checked.len(),
        count_where(checked, |c: CheckedBookmark| is_kept(c)) == count_where(
            checked,
            |c: CheckedBookmark| is_alive(c),
        ) + count_where(checked, |c: CheckedBookmark| c.status is Unknown),
{
    lemma_filter_count_or(
        checked,
        |c: CheckedBookmark| c.status is Dead,
        |c: CheckedBookmark| c.status is Unreachable,
        |c: CheckedBookmark| is_bad(c),
    );
    lemma_filter_count_split(checked, |c: CheckedBookmark| is_bad(c), |c: CheckedBookmark| is_kept(c));
    lemma_filter_count_or(
        checked,
        |c: CheckedBookmark| is_alive(c),
        |c: CheckedBookmark| c.status is Unknown,
        |c: CheckedBookmark| is_kept(c),
    );
}

/// Pruning deletes the oldest backups and leaves the newest
/// `min(keep, len)` of them.
pub proof fn law_prune_keeps_newest(backups: Seq<Seq<char>>, keep: nat)
    ensures
        prune_spec(backups, keep) + backups.skip(prune_spec(backups, keep).len() as int) == backups,
        backups.len() - prune_spec(backups, keep).len() == if backups.len() <= keep {
            backups.len() as int
        } else {
            keep as int
        },
{
    assert(prune_spec(backups, keep) + backups.skip(prune_spec(backups, keep).len() as int) =~= backups);
}

pub(crate) proof fn lemma_count_pos_facts<A>(t: Seq<A>, x: A, cnt: spec_fn(A) -> int)
    ensures
        0 <= count_pos(t, x, cnt) <= t.len(),
        forall|k: int| 0 <= k < count_pos(t, x, cnt) ==> cnt(#[trigger] t[k]) >= cnt(x),
        count_pos(t, x, cnt) < t.len() ==> cnt(t[count_pos(t, x, cnt)]) < cnt(x),
    decreases t.len(),
{
    if t.len() > 0 && cnt(t[0]) >= cnt(x) {
        lemma_count_pos_facts(t.drop_first(), x, cnt);
        assert forall|k: int| 0 <= k < count_pos(t, x, cnt) implies cnt(#[trigger] t[k]) >= cnt(x) by {
            if k > 0 {
                assert(t[k] == t.drop_first()[k - 1]);
            }
        }
    }
}

/// Whether `s` is in descending order of `cnt`.
pub open spec fn is_desc<A>(s: Seq<A>, cnt: spec_fn(A) -> int) -> bool {
    forall|i: int, j: int| 0 <= i < j < s.len() ==> cnt(#[trigger] s[i]) >= cnt(#[trigger] s[j])
}

/// The predicate "counts exactly `c`".
pub open spec fn counts<A>(cnt: spec_fn(A) -> int, c: int) -> spec_fn(A) -> bool {
    |a: A| cnt(a) == c
}

/// Sorting by count gives descending order, and is stable: for every
/// count, the elements with that count come in their input order (so the
/// result is a reordering of the input).
pub proof fn law_sort_desc<A>(s: Seq<A>, cnt: spec_fn(A) -> int)
    ensures
        is_desc(sort_desc(s, cnt), cnt),
        forall|c: int| #[trigger] sort_desc(s, cnt).filter(counts(cnt, c)) == s.filter(counts(cnt, c)),
    decreases s.len(),
{
    if s.len() > 0 {
        let sp = s.drop_last();
        let x = s.last();
        law_sort_desc(sp, cnt);
        let t = sort_desc(sp, cnt);
        lemma_sort_desc_len(sp, cnt);
        lemma_count_pos_facts(t, x, cnt);
        let p = count_pos(t, x, cnt);
        let r = t.insert(p, x);
        assert(r == sort_desc(s, cnt));
        assert forall|i: int, j: int| 0 <= i < j < r.len() implies cnt(#[trigger] r[i]) >= cnt(#[trigger] r[j]) by {
            if j < p {
                assert(r[i] == t[i] && r[j] == t[j]);
            } else if j == p {
                assert(r[i] == t[i]);
            } else if i < p {
                assert(r[i] == t[i] && r[j] == t[j - 1]);
            } else if i == p {
                assert(r[j] == t[j - 1]);
                if p < j - 1 {
                    assert(cnt(t[p]) >= cnt(t[j - 1]));
                }
            } else {
                assert(r[i] == t[i - 1] && r[j] == t[j - 1]);
            }
        }
        let a = t.subrange(0, p);
        let b = t.subrange(p, t.len() as int);
        assert(t =~= a + b);
        assert(r =~= a + seq![x] + b);
        assert(s =~= sp.push(x));
        assert forall|c: int| #[trigger] sort_desc(s, cnt).filter(counts(cnt, c)) == s.filter(counts(cnt, c)) by {
            let pc = counts(cnt, c);
            Seq::filter_distributes_over_add(a, b, pc);
            Seq::filter_distributes_over_add(a + seq![x], b, pc);
            Seq::filter_distributes_over_add(a, seq![x], pc);
            sp.lemma_filter_push(x, pc);
            reveal(Seq::filter);
            assert(seq![x].drop_last() =~= Seq::<A>::empty());
            if c == cnt(x) {
                assert(b.filter(pc) =~= Seq::<A>::empty()) by {
                    assert forall|k: int| 0 <= k < b.len() implies !pc(#[trigger] b[k]) by {
                        assert(b[k] == t[p + k]);
                        if k > 0 {
                            assert(cnt(t[p]) >= cnt(t[p + k]));
                        }
                    }
                    lemma_filter_none(b, pc);
                }
                assert(t.filter(pc) =~= a.filter(pc));
            }
        }
    }
}

/// Filtering by a predicate that no element meets keeps nothing.
pub(crate) proof fn lemma_filter_none<A>(s: Seq<A>, p: spec_fn(A) -> bool)
    requires
        forall|k: int| 0 <= k < s.len() ==> !p(#[trigger] s[k]),
    ensures
        s.filter(p) == Seq::<A>::empty(),
    decreases s.len(),
{
    reveal(Seq::filter);
    if s.len() > 0 {
        lemma_filter_none(s.drop_last(), p);
    }
    assert(s.filter(p) =~= Seq::<A>::empty());
}


/// A sequence whose URLs do not repeat is its own deduplication.
proof fn lemma_first_of_each_distinct(s: Seq<BookmarkView>)
    requires
        keys_of(s, url_key()).no_duplicates(),
    ensures
        first_of_each(s) == s,
    decreases s.len(),
{
    if s.len() > 0 {
        let s0 = s.drop_last();
        assert(keys_of(s, url_key()).drop_last() =~= keys_of(s0, url_key()));
        lemma_first_of_each_distinct(s0);
        assert(!keys_of(s0, url_key()).contains(s.last().normalized_url)) by {
            if keys_of(s0, url_key()).contains(s.last().normalized_url) {
                let j = choose|j: int| 0 <= j < s0.len() && keys_of(s0, url_key())[j] == s.last().normalized_url;
                assert(keys_of(s, url_key())[j] == keys_of(s, url_key())[s.len() - 1]);
            }
        }
        assert(s0.push(s.last()) =~= s);
    }
}

/// Removing duplicates twice removes nothing more the second time.
pub proof fn law_remove_duplicates_idempotent(bms: Seq<BookmarkView>)
    ensures
        first_of_each(first_of_each(bms)) == first_of_each(bms),
{
    law_remove_duplicates_keys(bms);
    lemma_first_of_each_distinct(first_of_each(bms));
}

/// Filtering keeps a sequence free of repeats.
proof fn lemma_filter_no_duplicates<A>(s: Seq<A>, p: spec_fn(A) -> bool)
    requires
        s.no_duplicates(),
    ensures
        s.filter(p).no_duplicates(),
    decreases s.len(),
{
    if s.len() > 0 {
        let s0 = s.drop_last();
        lemma_filter_no_duplicates(s0, p);
        assert(s0.push(s.last()) =~= s);
        s0.lemma_filter_push(s.last(), p);
        if p(s.last()) {
            assert(!s0.filter(p).contains(s.last())) by {
                if s0.filter(p).contains(s.last()) {
                    s0.lemma_filter_contains_rev(p, s.last());
                    let j = choose|j: int| 0 <= j < s0.len() && s0[j] == s.last();
                    assert(s[j] == s[s.len() - 1]);
                }
            }
        }
    }
}

/// The duplicate groups are keyed by exactly the normalized URLs that two
/// or more bookmarks carry, each once.
pub proof fn law_duplicate_keys(bms: Seq<BookmarkView>, u: Seq<char>)
    ensures
        dup_keys(bms).contains(u) <==> group_of(bms, url_key(), u).len() >= 2,
        dup_keys(bms).no_duplicates(),
{
    let keys = keys_of(bms, url_key());
    let d = distinct_keys(keys);
    lemma_distinct_keys(keys);
    lemma_filter_no_duplicates(d, is_dup_key(bms));
    if dup_keys(bms).contains(u) {
        d.lemma_filter_contains_rev(is_dup_key(bms), u);
        let j = choose|j: int| 0 <= j < dup_keys(bms).len() && dup_keys(bms)[j] == u;
        d.lemma_filter_pred(is_dup_key(bms), j);
    }
    if group_of(bms, url_key(), u).len() >= 2 {
        let g = group_of(bms, url_key(), u);
        bms.lemma_filter_pred(has_key(url_key(), u), 0);
        assert(g.contains(g[0]));
        bms.lemma_filter_contains_rev(has_key(url_key(), u), g[0]);
        let i = choose|i: int| 0 <= i < bms.len() && bms[i] == g[0];
        assert(keys[i] == u);
        assert(keys.contains(u));
        assert(d.contains(u));
        let j = choose|j: int| 0 <= j < d.len() && d[j] == u;
        d.lemma_filter_contains(is_dup_key(bms), j);
    }
}


/// Whether a character is a decimal digit.
pub open spec fn is_digit(c: char) -> bool {
    '0' <= c && c <= '9'
}

/// Whether every character of `s` is a decimal digit.
pub open spec fn all_digits(s: Seq<char>) -> bool {
    forall|i: int| 0 <= i < s.len() ==> is_digit(#[trigger] s[i])
}

/// The value of a decimal digit.
pub open spec fn digit_value(c: char) -> int {
    (c as int) - ('0' as int)
}

/// Ten to the power `n`.
pub open spec fn pow10(n: nat) -> int
    decreases n,
{
    if n == 0 {
        1
    } else {
        10 * pow10((n - 1) as nat)
    }
}

/// The number that a decimal numeral stands for.
pub open spec fn numeral_value(s: Seq<char>) -> int
    decreases s.len(),
{
    if s.len() == 0 {
        0
    } else {
        digit_value(s[0]) * pow10((s.len() - 1) as nat) + numeral_value(s.drop_first())
    }
}

proof fn lemma_pow10_mono(m: nat, n: nat)
    requires
        m <= n,
    ensures
        1 <= pow10(m) <= pow10(n),
    decreases n,
{
    if n > m {
        lemma_pow10_mono(m, (n - 1) as nat);
    } else if n > 0 {
        lemma_pow10_mono(0, (n - 1) as nat);
    }
}

/// A numeral of `n` digits stands for a number below 10^n.
proof fn lemma_value_bound(s: Seq<char>)
    requires
        all_digits(s),
    ensures
        0 <= numeral_value(s) < pow10(s.len()),
    decreases s.len(),
{
    if s.len() > 0 {
        let t = s.drop_first();
        assert(all_digits(t)) by {
            assert forall|i: int| 0 <= i < t.len() implies is_digit(#[trigger] t[i]) by {
                assert(t[i] == s[i + 1]);
            }
        }
        lemma_value_bound(t);
        assert(is_digit(s[0]));
        let d = digit_value(s[0]);
        let p = pow10((s.len() - 1) as nat);
        lemma_pow10_mono(0, (s.len() - 1) as nat);
        assert(0 <= d <= 9);
        assert(pow10(s.len()) == 10 * p);
        assert(0 <= d * p <= 9 * p) by (nonlinear_arith)
            requires
                0 <= d <= 9,
                p >= 1,
        ;
    }
}

/// A numeral whose first digit is not zero stands for at least 10^(n-1).
proof fn lemma_value_lead(s: Seq<char>)
    requires
        all_digits(s),
        s.len() > 0,
        s[0] != '0',
    ensures
        numeral_value(s) >= pow10((s.len() - 1) as nat),
{
    let t = s.drop_first();
    assert(all_digits(t)) by {
        assert forall|i: int| 0 <= i < t.len() implies is_digit(#[trigger] t[i]) by {
            assert(t[i] == s[i + 1]);
        }
    }
    lemma_value_bound(t);
    assert(is_digit(s[0]));
    let d = digit_value(s[0]);
    let p = pow10((s.len() - 1) as nat);
    assert(d >= 1);
    lemma_pow10_mono(0, (s.len() - 1) as nat);
    assert(d * p >= p) by (nonlinear_arith)
        requires
            d >= 1,
            p >= 1,
    ;
}

/// Leading zeros do not change a numeral's value.
proof fn lemma_value_strip(s: Seq<char>)
    requires
        all_digits(s),
    ensures
        numeral_value(strip_zeros(s)) == numeral_value(s),
        all_digits(strip_zeros(s)),
        strip_zeros(s).len() > 0 ==> strip_zeros(s)[0] != '0',
    decreases s.len(),
{
    if s.len() > 0 && s[0] == '0' {
        let t = s.drop_first();
        assert(all_digits(t)) by {
            assert forall|i: int| 0 <= i < t.len() implies is_digit(#[trigger] t[i]) by {
                assert(t[i] == s[i + 1]);
            }
        }
        lemma_value_strip(t);
        assert(digit_value(s[0]) == 0);
    }
}

/// Of two numerals of one length, the one first in lexicographic order
/// stands for the smaller number.
proof fn lemma_value_lex(a: Seq<char>, b: Seq<char>)
    requires
        all_digits(a),
        all_digits(b),
        a.len() == b.len(),
        seq_lt(a, b),
    ensures
        numeral_value(a) < numeral_value(b),
    decreases a.len(),
{
    let ta = a.drop_first();
    let tb = b.drop_first();
    assert(all_digits(ta)) by {
        assert forall|i: int| 0 <= i < ta.len() implies is_digit(#[trigger] ta[i]) by {
            assert(ta[i] == a[i + 1]);
        }
    }
    assert(all_digits(tb)) by {
        assert forall|i: int| 0 <= i < tb.len() implies is_digit(#[trigger] tb[i]) by {
            assert(tb[i] == b[i + 1]);
        }
    }
    assert(is_digit(a[0]) && is_digit(b[0]));
    let p = pow10((a.len() - 1) as nat);
    let da = digit_value(a[0]);
    let db = digit_value(b[0]);
    if a[0] != b[0] {
        lemma_value_bound(ta);
        lemma_value_bound(tb);
        assert(da < db);
        assert(da * p + p <= db * p) by (nonlinear_arith)
            requires
                da < db,
                p >= 1,
        ;
    } else {
        lemma_value_lex(ta, tb);
    }
}

/// Last-use stamps compare by the numbers they stand for: for two decimal
/// numerals, one is ordered below the other exactly when its value is
/// smaller (so "13340000000000000" is below "13350000000000000", and "09"
/// and "9" are equal).
pub proof fn law_numeral_order(x: Seq<char>, y: Seq<char>)
    requires
        all_digits(x),
        all_digits(y),
    ensures
        numeral_lt(x, y) <==> numeral_value(x) < numeral_value(y),
{
    let a = strip_zeros(x);
    let b = strip_zeros(y);
    lemma_value_strip(x);
    lemma_value_strip(y);
    lemma_value_bound(a);
    lemma_value_bound(b);
    if a.len() < b.len() {
        lemma_value_lead(b);
        lemma_pow10_mono(a.len(), (b.len() - 1) as nat);
    } else if a.len() > b.len() {
        lemma_value_lead(a);
        lemma_pow10_mono(b.len(), (a.len() - 1) as nat);
    } else if seq_lt(a, b) {
        lemma_value_lex(a, b);
    } else {
        lemma_lt_total(a, b);
        if a != b {
            lemma_value_lex(b, a);
        }
    }
}

/// Keeping the most recent copy keeps one whose last use is, as a number,
/// no earlier than any other copy's, where every copy has a decimal stamp.
pub proof fn law_most_recent_value(g: Seq<BookmarkView>)
    requires
        g.len() > 0,
        forall|i: int|
            0 <= i < g.len() ==> (#[trigger] g[i]).date_last_used is Some && all_digits(
                g[i].date_last_used->0,
            ),
    ensures
        forall|i: int|
            0 <= i < g.len() ==> numeral_value(most_recent(g).date_last_used->0) >= numeral_value(
                (#[trigger] g[i]).date_last_used->0,
            ),
{
    law_most_recent(g);
    let m = most_recent(g);
    let k = choose|k: int| 0 <= k < g.len() && g[k] == m;
    assert(m.date_last_used is Some && all_digits(m.date_last_used->0)) by {
        assert(g[k] == m);
    }
    assert forall|i: int| 0 <= i < g.len() implies numeral_value(m.date_last_used->0) >= numeral_value(
        (#[trigger] g[i]).date_last_used->0,
    ) by {
        assert(!opt_lt(m.date_last_used, g[i].date_last_used));
        law_numeral_order(m.date_last_used->0, g[i].date_last_used->0);
    }
}

} // verus!
