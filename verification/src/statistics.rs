//! Properties of the domain statistics: one exact entry per domain, most
//! bookmarks first, and the counts add up to the number of bookmarks.
use vstd::prelude::*;
use crate::bookmark::BookmarkView;
use crate::duplicates::sum_over;
use crate::grouping::{distinct_keys, group_of, has_key, keys_of, lemma_distinct_keys};
use crate::laws::{is_desc, lemma_count_pos_facts, lemma_group_sizes_total, law_sort_desc};
use crate::organizer::{DomainStatsView, domain_key, domain_stats_spec, stats_count, stats_of};
use crate::sorting::{count_pos, sort_desc};

verus! {

broadcast use vstd::seq_lib::group_seq_properties;

/// The sum of `f` over the elements of `s`.
pub open spec fn seq_sum<A>(s: Seq<A>, f: spec_fn(A) -> int) -> int
    decreases s.len(),
{
    if s.len() == 0 {
        0
    } else {
        seq_sum(s.drop_last(), f) + f(s.last())
    }
}

/// Inserting an element adds its value to the sum.
proof fn lemma_seq_sum_insert<A>(t: Seq<A>, p: int, x: A, f: spec_fn(A) -> int)
    requires
        0 <= p <= t.len(),
    ensures
        seq_sum(t.insert(p, x), f) == seq_sum(t, f) + f(x),
    decreases t.len(),
{
    if p == t.len() {
        assert(t.insert(p, x) =~= t.push(x));
        assert(t.push(x).drop_last() =~= t);
    } else {
        lemma_seq_sum_insert(t.drop_last(), p, x, f);
        assert(t.insert(p, x).drop_last() =~= t.drop_last().insert(p, x));
        assert(t.insert(p, x).last() == t.last());
    }
}

/// Sorting by count reorders: it keeps every element as often as the
/// input has it, and so every sum over the elements.
pub proof fn lemma_sort_desc_reorders<A>(s: Seq<A>, cnt: spec_fn(A) -> int, f: spec_fn(A) -> int)
    ensures
        sort_desc(s, cnt).to_multiset() == s.to_multiset(),
        seq_sum(sort_desc(s, cnt), f) == seq_sum(s, f),
    decreases s.len(),
{
    broadcast use vstd::seq_lib::group_to_multiset_ensures;

    if s.len() > 0 {
        let s0 = s.drop_last();
        let x = s.last();
        lemma_sort_desc_reorders(s0, cnt, f);
        let t = sort_desc(s0, cnt);
        lemma_count_pos_facts(t, x, cnt);
        let p = count_pos(t, x, cnt);
        lemma_seq_sum_insert(t, p, x, f);
        assert(s0.push(x) =~= s);
    }
}

/// Summing over the images of keys.
proof fn lemma_seq_sum_map<A>(ks: Seq<Seq<char>>, g: spec_fn(Seq<char>) -> A, f: spec_fn(A) -> int)
    ensures
        seq_sum(ks.map_values(g), f) == sum_over(ks, |k: Seq<char>| f(g(k))),
    decreases ks.len(),
{
    if ks.len() > 0 {
        lemma_seq_sum_map(ks.drop_last(), g, f);
        assert(ks.map_values(g).drop_last() =~= ks.drop_last().map_values(g));
    }
}

/// The domain statistics have one entry per domain of the bookmarks, each
/// exact for its domain (the number of its bookmarks and their names in
/// input order); every entry counts at least one bookmark, the entries
/// come most bookmarks first, and the counts add up to the number of
/// bookmarks.
pub proof fn law_domain_stats(bms: Seq<BookmarkView>)
    ensures
        forall|i: int|
            0 <= i < domain_stats_spec(bms).len() ==> #[trigger] domain_stats_spec(bms)[i] == stats_of(
                bms,
            )(domain_stats_spec(bms)[i].domain) && domain_stats_spec(bms)[i].count > 0,
        forall|i: int, j: int|
            0 <= i < j < domain_stats_spec(bms).len() ==> (#[trigger] domain_stats_spec(bms)[i]).domain
                != (#[trigger] domain_stats_spec(bms)[j]).domain,
        forall|i: int|
            0 <= i < bms.len() ==> exists|j: int|
                0 <= j < domain_stats_spec(bms).len() && (#[trigger] domain_stats_spec(bms)[j]).domain
                    == (#[trigger] bms[i]).domain,
        is_desc(domain_stats_spec(bms), stats_count()),
        seq_sum(domain_stats_spec(bms), stats_count()) == bms.len(),
{
    broadcast use vstd::seq_lib::group_to_multiset_ensures;

    let keys = keys_of(bms, domain_key());
    let dk = distinct_keys(keys);
    let s = dk.map_values(stats_of(bms));
    let r = domain_stats_spec(bms);
    lemma_distinct_keys(keys);
    lemma_sort_desc_reorders(s, stats_count(), stats_count());
    law_sort_desc(s, stats_count());
    assert forall|x: DomainStatsView| #[trigger] r.contains(x) <==> s.contains(x) by {
        assert(r.contains(x) <==> r.to_multiset().count(x) > 0);
        assert(s.contains(x) <==> s.to_multiset().count(x) > 0);
    }
    assert forall|i: int| 0 <= i < r.len() implies #[trigger] r[i] == stats_of(bms)(r[i].domain)
        && r[i].count > 0 by {
        assert(r.contains(r[i]));
        let j = choose|j: int| 0 <= j < s.len() && s[j] == r[i];
        assert(dk.contains(dk[j]));
        assert(keys.contains(dk[j]));
        let k = choose|k: int| 0 <= k < keys.len() && keys[k] == dk[j];
        bms.lemma_filter_contains(has_key(domain_key(), dk[j]), k);
    }
    assert(s.no_duplicates()) by {
        assert forall|a: int, b: int| 0 <= a < s.len() && 0 <= b < s.len() && a != b implies s[a]
            != s[b] by {
            assert(s[a].domain == dk[a]);
            assert(s[b].domain == dk[b]);
        }
    }
    s.lemma_multiset_has_no_duplicates();
    assert forall|x: DomainStatsView| r.to_multiset().contains(x) implies r.to_multiset().count(x)
        == 1 by {
        assert(s.to_multiset().contains(x));
    }
    r.lemma_multiset_has_no_duplicates_conv();
    assert forall|i: int, j: int| 0 <= i < j < r.len() implies (#[trigger] r[i]).domain
        != (#[trigger] r[j]).domain by {
        if r[i].domain == r[j].domain {
            assert(r[i] == stats_of(bms)(r[i].domain));
            assert(r[j] == stats_of(bms)(r[j].domain));
        }
    }
    assert forall|i: int| 0 <= i < bms.len() implies exists|j: int|
        0 <= j < r.len() && (#[trigger] r[j]).domain == (#[trigger] bms[i]).domain by {
        assert(keys[i] == bms[i].domain);
        assert(keys.contains(keys[i]));
        assert(dk.contains(keys[i]));
        let a = choose|a: int| 0 <= a < dk.len() && dk[a] == keys[i];
        assert(s[a] == stats_of(bms)(dk[a]));
        assert(s.contains(s[a]));
        assert(r.contains(s[a]));
        let j = choose|j: int| 0 <= j < r.len() && r[j] == s[a];
        assert(r[j].domain == bms[i].domain);
    }
    lemma_seq_sum_map(dk, stats_of(bms), stats_count());
    lemma_group_sizes_total(bms, domain_key());
    assert((|k: Seq<char>| stats_count()(stats_of(bms)(k))) =~= (|k: Seq<char>| group_of(
        bms,
        domain_key(),
        k,
    ).len() as int));
}

} // verus!
