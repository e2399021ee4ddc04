//! Grouping bookmarks by a string key: the distinct keys in order of first
//! occurrence, and for each key the bookmarks that carry it, in input order.
use vstd::prelude::*;
use crate::bookmark::{Bookmark, BookmarkView, bookmark_views, ref_views};
use crate::text::str_views;

verus! {

broadcast use vstd::seq_lib::group_seq_properties;

/// The distinct elements of `keys`, in order of first occurrence.
pub open spec fn distinct_keys(keys: Seq<Seq<char>>) -> Seq<Seq<char>>
    decreases keys.len(),
{
    if keys.len() == 0 {
        Seq::empty()
    } else {
        let d = distinct_keys(keys.drop_last());
        if d.contains(keys.last()) {
            d
        } else {
            d.push(keys.last())
        }
    }
}

/// The key of each bookmark.
pub open spec fn keys_of(bms: Seq<BookmarkView>, key: spec_fn(BookmarkView) -> Seq<char>) -> Seq<
    Seq<char>,
> {
    bms.map_values(key)
}

/// The predicate "has key `k`".
pub open spec fn has_key(key: spec_fn(BookmarkView) -> Seq<char>, k: Seq<char>) -> spec_fn(
    BookmarkView,
) -> bool {
    |b: BookmarkView| key(b) == k
}

/// The bookmarks of `bms` with key `k`, in order.
pub open spec fn group_of(
    bms: Seq<BookmarkView>,
    key: spec_fn(BookmarkView) -> Seq<char>,
    k: Seq<char>,
) -> Seq<BookmarkView> {
    bms.filter(has_key(key, k))
}

/// A grouping of `bms` by `key`: one entry per distinct key, in order of
/// first occurrence, holding that key and the bookmarks that carry it in
/// input order.
pub open spec fn is_grouping(
    r: Seq<(String, Vec<&Bookmark>)>,
    bms: Seq<BookmarkView>,
    key: spec_fn(BookmarkView) -> Seq<char>,
) -> bool {
    &&& r.len() == distinct_keys(keys_of(bms, key)).len()
    &&& forall|i: int|
        0 <= i < r.len() ==> {
            &&& (#[trigger] r[i]).0@ == distinct_keys(keys_of(bms, key))[i]
            &&& ref_views(r[i].1@) == group_of(bms, key, r[i].0@)
        }
}

/// Distinct keys never repeat, and they are exactly the keys that occur.
pub proof fn lemma_distinct_keys(keys: Seq<Seq<char>>)
    ensures
        distinct_keys(keys).no_duplicates(),
        forall|k: Seq<char>| #[trigger] distinct_keys(keys).contains(k) <==> keys.contains(k),
        distinct_keys(keys).len() <= keys.len(),
    decreases keys.len(),
{
    if keys.len() > 0 {
        lemma_distinct_keys(keys.drop_last());
        assert forall|k: Seq<char>| #[trigger] distinct_keys(keys).contains(k) <==> keys.contains(
            k,
        ) by {
            if keys.contains(k) && k != keys.last() {
                let j = choose|j: int| 0 <= j < keys.len() && keys[j] == k;
                assert(keys.drop_last()[j] == k);
            }
            if keys.drop_last().contains(k) {
                let j = choose|j: int| 0 <= j < keys.drop_last().len() && keys.drop_last()[j] == k;
                assert(keys[j] == k);
            }
            if distinct_keys(keys).contains(k) && k != keys.last() {
                assert(distinct_keys(keys.drop_last()).contains(k));
            }
            if k == keys.last() {
                assert(keys[keys.len() - 1] == k);
            }
        }
    }
}

/// The distinct strings of `keys` in order of first occurrence.
pub fn distinct_strings(keys: &Vec<String>) -> (r: Vec<String>)
    ensures
        str_views(r@) == distinct_keys(str_views(keys@)),
{
    let mut d: Vec<String> = Vec::new();
    let mut i: usize = 0;
    while i < keys.len()
        invariant
            i <= keys@.len(),
            str_views(d@) == distinct_keys(str_views(keys@).take(i as int)),
        decreases keys@.len() - i,
    {
        let ghost t = str_views(keys@).take(i + 1);
        assert(t.drop_last() =~= str_views(keys@).take(i as int));
        let mut j: usize = 0;
        let mut found = false;
        while j < d.len()
            invariant
                i < keys@.len(),
                j <= d@.len(),
                found ==> str_views(d@).contains(keys@[i as int]@),
                !found ==> forall|k: int| 0 <= k < j ==> str_views(d@)[k] != keys@[i as int]@,
            decreases d@.len() - j,
        {
            if d[j] == keys[i] {
                found = true;
                assert(str_views(d@)[j as int] == keys@[i as int]@);
            }
            j = j + 1;
        }
        if !found {
            d.push(keys[i].clone());
            assert(str_views(d@) =~= distinct_keys(t));
        }
        i = i + 1;
    }
    assert(str_views(keys@).take(keys@.len() as int) =~= str_views(keys@));
    d
}

/// The bookmarks of `bookmarks` whose key (given in `keys`) is `k`.
pub(crate) fn select_by_key<'a>(
    bookmarks: &'a [Bookmark],
    keys: &Vec<String>,
    k: &String,
    Ghost(key): Ghost<spec_fn(BookmarkView) -> Seq<char>>,
) -> (r: Vec<&'a Bookmark>)
    requires
        keys@.len() == bookmarks@.len(),
        forall|i: int| 0 <= i < keys@.len() ==> (#[trigger] keys@[i])@ == key(bookmarks@[i]@),
    ensures
        ref_views(r@) == group_of(bookmark_views(bookmarks@), key, k@),
{
    let mut r: Vec<&'a Bookmark> = Vec::new();
    let mut j: usize = 0;
    while j < bookmarks.len()
        invariant
            keys@.len() == bookmarks@.len(),
            forall|i: int| 0 <= i < keys@.len() ==> (#[trigger] keys@[i])@ == key(bookmarks@[i]@),
            j <= bookmarks@.len(),
            ref_views(r@) == bookmark_views(bookmarks@).take(j as int).filter(has_key(key, k@)),
        decreases bookmarks@.len() - j,
    {
        let ghost bv = bookmark_views(bookmarks@);
        let ghost before = ref_views(r@);
        assert(bv.take(j + 1) =~= bv.take(j as int).push(bv[j as int]));
        proof {
            bv.take(j as int).lemma_filter_push(bv[j as int], has_key(key, k@));
        }
        if keys[j] == *k {
            r.push(&bookmarks[j]);
            assert(ref_views(r@) =~= before.push(bv[j as int]));
        } else {
            assert(!has_key(key, k@)(bv[j as int]));
        }
        j = j + 1;
    }
    assert(bookmark_views(bookmarks@).take(bookmarks@.len() as int) =~= bookmark_views(
        bookmarks@,
    ));
    r
}

/// Group `bookmarks` by the keys given in `keys`.
pub(crate) fn group_by_keys<'a>(
    bookmarks: &'a [Bookmark],
    keys: &Vec<String>,
    Ghost(key): Ghost<spec_fn(BookmarkView) -> Seq<char>>,
) -> (r: Vec<(String, Vec<&'a Bookmark>)>)
    requires
        keys@.len() == bookmarks@.len(),
        forall|i: int| 0 <= i < keys@.len() ==> (#[trigger] keys@[i])@ == key(bookmarks@[i]@),
    ensures
        is_grouping(r@, bookmark_views(bookmarks@), key),
{
    assert(str_views(keys@) =~= keys_of(bookmark_views(bookmarks@), key));
    let d = distinct_strings(keys);
    let mut r: Vec<(String, Vec<&'a Bookmark>)> = Vec::new();
    let mut i: usize = 0;
    while i < d.len()
        invariant
            keys@.len() == bookmarks@.len(),
            forall|i: int| 0 <= i < keys@.len() ==> (#[trigger] keys@[i])@ == key(bookmarks@[i]@),
            str_views(d@) == distinct_keys(keys_of(bookmark_views(bookmarks@), key)),
            i <= d@.len(),
            r@.len() == i,
            forall|j: int|
                0 <= j < i ==> {
                    &&& (#[trigger] r@[j]).0@ == d@[j]@
                    &&& ref_views(r@[j].1@) == group_of(bookmark_views(bookmarks@), key, r@[j].0@)
                },
        decreases d@.len() - i,
    {
        let g = select_by_key(bookmarks, keys, &d[i], Ghost(key));
        r.push((d[i].clone(), g));
        i = i + 1;
    }
    r
}

} // verus!
