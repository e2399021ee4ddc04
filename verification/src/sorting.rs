//! Sorting: strings in lexicographic order, and pairs by a count in
//! descending order with equal counts kept in their original order.
use vstd::prelude::*;
use crate::text::{seq_le, seq_lt, lemma_lt_total, lemma_lt_transitive, str_lt, str_views};

verus! {

broadcast use vstd::seq_lib::group_seq_properties;

/// The position at which `x` goes into the sorted sequence `t`: before the
/// first element strictly greater than `x`.
pub open spec fn insert_pos(t: Seq<Seq<char>>, x: Seq<char>) -> int
    decreases t.len(),
{
    if t.len() == 0 {
        0
    } else if seq_lt(x, t[0]) {
        0
    } else {
        1 + insert_pos(t.drop_first(), x)
    }
}

/// `s` sorted in lexicographic order (each element inserted in turn after
/// the elements not greater than it).
pub open spec fn sorted_strs(s: Seq<Seq<char>>) -> Seq<Seq<char>>
    decreases s.len(),
{
    if s.len() == 0 {
        s
    } else {
        let t = sorted_strs(s.drop_last());
        t.insert(insert_pos(t, s.last()), s.last())
    }
}

/// Whether a sequence of strings is in non-decreasing lexicographic order.
pub open spec fn is_sorted_strs(s: Seq<Seq<char>>) -> bool {
    forall|i: int, j: int| 0 <= i < j < s.len() ==> seq_le(#[trigger] s[i], #[trigger] s[j])
}

proof fn lemma_insert_pos_char(t: Seq<Seq<char>>, x: Seq<char>, p: int)
    requires
        0 <= p <= t.len(),
        forall|k: int| 0 <= k < p ==> !seq_lt(x, #[trigger] t[k]),
        p == t.len() || seq_lt(x, t[p]),
    ensures
        insert_pos(t, x) == p,
    decreases t.len(),
{
    if t.len() > 0 && p > 0 {
        assert(!seq_lt(x, t[0]));
        lemma_insert_pos_char(t.drop_first(), x, p - 1);
    }
}

proof fn lemma_insert_pos_bounds(t: Seq<Seq<char>>, x: Seq<char>)
    ensures
        0 <= insert_pos(t, x) <= t.len(),
    decreases t.len(),
{
    if t.len() > 0 {
        lemma_insert_pos_bounds(t.drop_first(), x);
    }
}

/// Sorting keeps the length.
pub proof fn lemma_sorted_len(s: Seq<Seq<char>>)
    ensures
        sorted_strs(s).len() == s.len(),
    decreases s.len(),
{
    if s.len() > 0 {
        lemma_sorted_len(s.drop_last());
        lemma_insert_pos_bounds(sorted_strs(s.drop_last()), s.last());
    }
}

/// The result of sorting is sorted.
pub proof fn lemma_sorted_is_sorted(s: Seq<Seq<char>>)
    ensures
        is_sorted_strs(sorted_strs(s)),
    decreases s.len(),
{
    if s.len() > 0 {
        lemma_sorted_is_sorted(s.drop_last());
        let t = sorted_strs(s.drop_last());
        let x = s.last();
        lemma_insert_pos_bounds(t, x);
        lemma_insert_pos_facts(t, x);
        let p = insert_pos(t, x);
        let r = t.insert(p, x);
        assert forall|i: int, j: int| 0 <= i < j < r.len() implies seq_le(
            #[trigger] r[i],
            #[trigger] r[j],
        ) by {
            if j < p {
                assert(r[i] == t[i] && r[j] == t[j]);
            } else if j == p {
                assert(r[i] == t[i]);
                lemma_lt_total(t[i], x);
            } else if i < p {
                assert(r[i] == t[i] && r[j] == t[j - 1]);
                if i < j - 1 {
                    assert(seq_le(t[i], t[j - 1]));
                }
            } else if i == p {
                assert(r[j] == t[j - 1]);
                assert(seq_lt(x, t[p]));
                if p < j - 1 {
                    assert(seq_le(t[p], t[j - 1]));
                    if seq_lt(t[p], t[j - 1]) {
                        lemma_lt_transitive(x, t[p], t[j - 1]);
                    }
                }
            } else {
                assert(r[i] == t[i - 1] && r[j] == t[j - 1]);
            }
        }
    }
}

proof fn lemma_insert_pos_facts(t: Seq<Seq<char>>, x: Seq<char>)
    ensures
        forall|k: int| 0 <= k < insert_pos(t, x) ==> !seq_lt(x, #[trigger] t[k]),
        insert_pos(t, x) < t.len() ==> seq_lt(x, t[insert_pos(t, x)]),
    decreases t.len(),
{
    lemma_insert_pos_bounds(t, x);
    if t.len() > 0 && !seq_lt(x, t[0]) {
        lemma_insert_pos_facts(t.drop_first(), x);
        lemma_insert_pos_bounds(t.drop_first(), x);
        assert forall|k: int| 0 <= k < insert_pos(t, x) implies !seq_lt(x, #[trigger] t[k]) by {
            if k > 0 {
                assert(t[k] == t.drop_first()[k - 1]);
            }
        }
    }
}

/// Sorting a sequence and sorting any reordering of it give the same
/// result: the sorted sequence holds the same elements as the input.
pub proof fn lemma_sorted_multiset(s: Seq<Seq<char>>)
    ensures
        sorted_strs(s).to_multiset() == s.to_multiset(),
    decreases s.len(),
{
    broadcast use vstd::seq_lib::group_to_multiset_ensures;
    broadcast use vstd::multiset::group_multiset_axioms;

    if s.len() > 0 {
        lemma_sorted_multiset(s.drop_last());
        let t = sorted_strs(s.drop_last());
        lemma_insert_pos_bounds(t, s.last());
        let p = insert_pos(t, s.last());
        assert(t.insert(p, s.last()) =~= t.subrange(0, p) + seq![s.last()] + t.subrange(p, t.len() as int));
        lemma_multiset_add(t.subrange(0, p), seq![s.last()]);
        lemma_multiset_add(t.subrange(0, p) + seq![s.last()], t.subrange(p, t.len() as int));
        lemma_multiset_add(t.subrange(0, p), t.subrange(p, t.len() as int));
        assert(t =~= t.subrange(0, p) + t.subrange(p, t.len() as int));
        assert(s =~= s.drop_last().push(s.last()));
    }
}

/// Sorting keeps exactly the elements of the input, and a sequence without
/// repeats stays without repeats.
pub proof fn lemma_sorted_distinct(s: Seq<Seq<char>>)
    ensures
        forall|x: Seq<char>| #[trigger] sorted_strs(s).contains(x) <==> s.contains(x),
        s.no_duplicates() ==> sorted_strs(s).no_duplicates(),
{
    broadcast use vstd::seq_lib::group_to_multiset_ensures;

    let t = sorted_strs(s);
    lemma_sorted_multiset(s);
    assert forall|x: Seq<char>| #[trigger] t.contains(x) <==> s.contains(x) by {
        assert(t.contains(x) <==> t.to_multiset().count(x) > 0);
        assert(s.contains(x) <==> s.to_multiset().count(x) > 0);
    }
    if s.no_duplicates() {
        s.lemma_multiset_has_no_duplicates();
        assert forall|x: Seq<char>| t.to_multiset().contains(x) implies t.to_multiset().count(x)
            == 1 by {
            assert(s.to_multiset().contains(x));
        }
        t.lemma_multiset_has_no_duplicates_conv();
    }
}

proof fn lemma_multiset_add<A>(a: Seq<A>, b: Seq<A>)
    ensures
        (a + b).to_multiset() == a.to_multiset().add(b.to_multiset()),
{
    vstd::seq_lib::lemma_multiset_commutative(a, b);
}

/// `v` sorted in lexicographic order.
pub fn sort_strings(v: Vec<String>) -> (r: Vec<String>)
    ensures
        str_views(r@) == sorted_strs(str_views(v@)),
{
    let mut r: Vec<String> = Vec::new();
    let n = v.len();
    let mut i: usize = 0;
    while i < n
        invariant
            n == v@.len(),
            i <= n,
            str_views(r@) == sorted_strs(str_views(v@).take(i as int)),
        decreases n - i,
    {
        let x = v[i].clone();
        let ghost t = str_views(r@);
        let mut p: usize = 0;
        while p < r.len() && !str_lt(x.as_str(), r[p].as_str())
            invariant
                t == str_views(r@),
                p <= r@.len(),
                forall|k: int| 0 <= k < p ==> !seq_lt(x@, #[trigger] t[k]),
            decreases r@.len() - p,
        {
            p = p + 1;
        }
        proof {
            lemma_insert_pos_char(t, x@, p as int);
            assert(str_views(v@).take(i + 1).drop_last() =~= str_views(v@).take(i as int));
        }
        r.insert(p, x);
        assert(str_views(r@) =~= t.insert(p as int, v@[i as int]@));
        i = i + 1;
    }
    assert(str_views(v@).take(n as int) =~= str_views(v@));
    r
}

} // verus!

verus! {

/// The position at which `x` goes into `t`, a sequence in descending
/// order of `cnt`: after every element whose count is at least that of `x`.
pub open spec fn count_pos<A>(t: Seq<A>, x: A, cnt: spec_fn(A) -> int) -> int
    decreases t.len(),
{
    if t.len() == 0 {
        0
    } else if cnt(t[0]) < cnt(x) {
        0
    } else {
        1 + count_pos(t.drop_first(), x, cnt)
    }
}

/// `s` sorted by descending `cnt`, elements of equal count in their order
/// in `s` (each element inserted in turn after those that count as much).
pub open spec fn sort_desc<A>(s: Seq<A>, cnt: spec_fn(A) -> int) -> Seq<A>
    decreases s.len(),
{
    if s.len() == 0 {
        s
    } else {
        let t = sort_desc(s.drop_last(), cnt);
        t.insert(count_pos(t, s.last(), cnt), s.last())
    }
}

/// The views of a sequence.
pub open spec fn views_of<T: View>(s: Seq<T>) -> Seq<T::V> {
    s.map_values(|x: T| x@)
}

proof fn lemma_count_pos_char<A>(t: Seq<A>, x: A, cnt: spec_fn(A) -> int, p: int)
    requires
        0 <= p <= t.len(),
        forall|k: int| 0 <= k < p ==> cnt(#[trigger] t[k]) >= cnt(x),
        p == t.len() || cnt(t[p]) < cnt(x),
    ensures
        count_pos(t, x, cnt) == p,
    decreases t.len(),
{
    if t.len() > 0 && p > 0 {
        assert(cnt(t[0]) >= cnt(x));
        lemma_count_pos_char(t.drop_first(), x, cnt, p - 1);
    }
}

proof fn lemma_count_pos_bounds<A>(t: Seq<A>, x: A, cnt: spec_fn(A) -> int)
    ensures
        0 <= count_pos(t, x, cnt) <= t.len(),
    decreases t.len(),
{
    if t.len() > 0 {
        lemma_count_pos_bounds(t.drop_first(), x, cnt);
    }
}

/// Sorting by count keeps the length.
pub proof fn lemma_sort_desc_len<A>(s: Seq<A>, cnt: spec_fn(A) -> int)
    ensures
        sort_desc(s, cnt).len() == s.len(),
    decreases s.len(),
{
    if s.len() > 0 {
        lemma_sort_desc_len(s.drop_last(), cnt);
        lemma_count_pos_bounds(sort_desc(s.drop_last(), cnt), s.last(), cnt);
    }
}

/// The elements of `v` (each given with its count) in descending order of
/// count, equal counts in input order.
pub(crate) fn sort_by_count<T: View>(v: Vec<(usize, T)>, Ghost(cnt): Ghost<spec_fn(T::V) -> int>) -> (r: Vec<T>)
    requires
        forall|i: int| 0 <= i < v@.len() ==> (#[trigger] v@[i]).0 == cnt(v@[i].1@),
    ensures
        views_of(r@) == sort_desc(v@.map_values(|p: (usize, T)| p.1@), cnt),
{
    let ghost orig = v@.map_values(|p: (usize, T)| p.1@);
    let mut v = v;
    let mut r: Vec<T> = Vec::new();
    let mut counts: Vec<usize> = Vec::new();
    let ghost total = v@.len();
    while v.len() > 0
        invariant
            orig.len() == total,
            v@.len() <= total,
            forall|i: int| 0 <= i < v@.len() ==> (#[trigger] v@[i]).0 == cnt(v@[i].1@),
            v@.map_values(|p: (usize, T)| p.1@) == orig.skip(total - v@.len()),
            views_of(r@) == sort_desc(orig.take(total - v@.len()), cnt),
            counts@.len() == r@.len(),
            forall|i: int| 0 <= i < r@.len() ==> #[trigger] counts@[i] == cnt(r@[i]@),
        decreases v@.len(),
    {
        let ghost done = total - v@.len();
        let ghost t = views_of(r@);
        let (c, x) = v.remove(0);
        assert(orig[done] == x@) by {
            assert(orig.skip(done)[0] == x@);
        }
        let mut p: usize = 0;
        while p < r.len() && counts[p] >= c
            invariant
                counts@.len() == r@.len(),
                forall|i: int| 0 <= i < r@.len() ==> #[trigger] counts@[i] == cnt(r@[i]@),
                t == views_of(r@),
                c == cnt(x@),
                p <= r@.len(),
                forall|k: int| 0 <= k < p ==> cnt(#[trigger] t[k]) >= cnt(x@),
            decreases r@.len() - p,
        {
            p = p + 1;
        }
        proof {
            lemma_count_pos_char(t, x@, cnt, p as int);
            assert(orig.take(done + 1).drop_last() =~= orig.take(done));
        }
        let ghost rb = r@;
        let ghost cb = counts@;
        r.insert(p, x);
        counts.insert(p, c);
        assert(views_of(r@) =~= t.insert(p as int, orig[done]));
        assert(v@.map_values(|p: (usize, T)| p.1@) =~= orig.skip(total - v@.len()));
        assert forall|i: int| 0 <= i < r@.len() implies #[trigger] counts@[i] == cnt(r@[i]@) by {
            if i > p {
                assert(counts@[i] == cb[i - 1]);
                assert(r@[i] == rb[i - 1]);
            }
        }
    }
    assert(orig.take(total as int) =~= orig);
    r
}

} // verus!
