//! Topic-based grouping using keyword matching.
//!
//! Each bookmark's name, domain and URL are lowercased, split into words,
//! and the words stemmed; the topic whose stemmed keywords match the most
//! words wins.
use vstd::prelude::*;
use vstd::utf8::encode_utf8;
use crate::bookmark::{Bookmark, BookmarkView, bookmark_views, opt_view};
use crate::grouping::{group_by_keys, is_grouping};
use crate::organizer::{NameCount, count_groups, key_counts_spec};
use crate::sorting::views_of;
use crate::text::{
    concat_strs, not_alphanumeric, spec_to_lowercase, split_by, split_non_alphanumeric, str_views,
    to_lowercase, utf8_len_exceeds,
};

verus! {

broadcast use vstd::seq_lib::group_seq_properties;

/// What the English Snowball stemmer of `rust_stemmers` makes of a word.
pub uninterp spec fn english_stem(word: Seq<char>) -> Seq<char>;

/// Calls `rust_stemmers::Stemmer::create(Algorithm::English).stem(word)`.
/// The contract names the stem [`english_stem`] of the word's characters;
/// the Snowball rules themselves are not restated.
#[verifier::external_body]
fn english_stem_of(word: &str) -> (r: String)
    ensures
        r@ == english_stem(word@),
{
    rust_stemmers::Stemmer::create(rust_stemmers::Algorithm::English).stem(word).into_owned()
}

/// The predefined topics, in order, each with its stemmed keywords.
pub open spec fn topic_table() -> Seq<(Seq<char>, Seq<Seq<char>>)> {
    seq![
        (
            "Technology"@,
            seq![english_stem("tech"@), english_stem("software"@), english_stem("programming"@), english_stem("code"@), english_stem("developer"@), english_stem("api"@), english_stem("github"@), english_stem("stack"@)],
        ),
        (
            "News"@,
            seq![english_stem("news"@), english_stem("cnn"@), english_stem("bbc"@), english_stem("reuters"@), english_stem("times"@), english_stem("post"@), english_stem("journal"@)],
        ),
        (
            "Social Media"@,
            seq![english_stem("twitter"@), english_stem("facebook"@), english_stem("instagram"@), english_stem("linkedin"@), english_stem("reddit"@), english_stem("tiktok"@)],
        ),
        (
            "Shopping"@,
            seq![english_stem("amazon"@), english_stem("ebay"@), english_stem("shop"@), english_stem("store"@), english_stem("buy"@), english_stem("cart"@), english_stem("checkout"@)],
        ),
        (
            "Entertainment"@,
            seq![english_stem("youtube"@), english_stem("netflix"@), english_stem("spotify"@), english_stem("music"@), english_stem("movie"@), english_stem("video"@), english_stem("game"@)],
        ),
        (
            "Reference"@,
            seq![english_stem("wikipedia"@), english_stem("wiki"@), english_stem("docs"@), english_stem("documentation"@), english_stem("reference"@), english_stem("manual"@)],
        ),
        (
            "Finance"@,
            seq![english_stem("bank"@), english_stem("finance"@), english_stem("stock"@), english_stem("invest"@), english_stem("crypto"@), english_stem("money"@), english_stem("trading"@)],
        ),
        (
            "Education"@,
            seq![english_stem("learn"@), english_stem("course"@), english_stem("tutorial"@), english_stem("education"@), english_stem("university"@), english_stem("school"@)],
        ),
        (
            "Development"@,
            seq![english_stem("rust"@), english_stem("python"@), english_stem("javascript"@), english_stem("java"@), english_stem("golang"@), english_stem("cpp"@), english_stem("typescript"@)],
        ),
        (
            "Cloud"@,
            seq![english_stem("aws"@), english_stem("azure"@), english_stem("gcp"@), english_stem("cloud"@), english_stem("kubernetes"@), english_stem("docker"@), english_stem("devops"@)],
        ),
    ]
}

fn topic_entry_0() -> (r: (String, Vec<String>))
    ensures
        (r.0@, str_views(r.1@)) == topic_table()[0],
{
    let mut stems: Vec<String> = Vec::new();
    stems.push(english_stem_of("tech"));
    stems.push(english_stem_of("software"));
    stems.push(english_stem_of("programming"));
    stems.push(english_stem_of("code"));
    stems.push(english_stem_of("developer"));
    stems.push(english_stem_of("api"));
    stems.push(english_stem_of("github"));
    stems.push(english_stem_of("stack"));
    let name = String::from_str("Technology");
    assert(str_views(stems@) =~= topic_table()[0].1);
    (name, stems)
}

fn topic_entry_1() -> (r: (String, Vec<String>))
    ensures
        (r.0@, str_views(r.1@)) == topic_table()[1],
{
    let mut stems: Vec<String> = Vec::new();
    stems.push(english_stem_of("news"));
    stems.push(english_stem_of("cnn"));
    stems.push(english_stem_of("bbc"));
    stems.push(english_stem_of("reuters"));
    stems.push(english_stem_of("times"));
    stems.push(english_stem_of("post"));
    stems.push(english_stem_of("journal"));
    let name = String::from_str("News");
    assert(str_views(stems@) =~= topic_table()[1].1);
    (name, stems)
}

fn topic_entry_2() -> (r: (String, Vec<String>))
    ensures
        (r.0@, str_views(r.1@)) == topic_table()[2],
{
    let mut stems: Vec<String> = Vec::new();
    stems.push(english_stem_of("twitter"));
    stems.push(english_stem_of("facebook"));
    stems.push(english_stem_of("instagram"));
    stems.push(english_stem_of("linkedin"));
    stems.push(english_stem_of("reddit"));
    stems.push(english_stem_of("tiktok"));
    let name = String::from_str("Social Media");
    assert(str_views(stems@) =~= topic_table()[2].1);
    (name, stems)
}

fn topic_entry_3() -> (r: (String, Vec<String>))
    ensures
        (r.0@, str_views(r.1@)) == topic_table()[3],
{
    let mut stems: Vec<String> = Vec::new();
    stems.push(english_stem_of("amazon"));
    stems.push(english_stem_of("ebay"));
    stems.push(english_stem_of("shop"));
    stems.push(english_stem_of("store"));
    stems.push(english_stem_of("buy"));
    stems.push(english_stem_of("cart"));
    stems.push(english_stem_of("checkout"));
    let name = String::from_str("Shopping");
    assert(str_views(stems@) =~= topic_table()[3].1);
    (name, stems)
}

fn topic_entry_4() -> (r: (String, Vec<String>))
    ensures
        (r.0@, str_views(r.1@)) == topic_table()[4],
{
    let mut stems: Vec<String> = Vec::new();
    stems.push(english_stem_of("youtube"));
    stems.push(english_stem_of("netflix"));
    stems.push(english_stem_of("spotify"));
    stems.push(english_stem_of("music"));
    stems.push(english_stem_of("movie"));
    stems.push(english_stem_of("video"));
    stems.push(english_stem_of("game"));
    let name = String::from_str("Entertainment");
    assert(str_views(stems@) =~= topic_table()[4].1);
    (name, stems)
}

fn topic_entry_5() -> (r: (String, Vec<String>))
    ensures
        (r.0@, str_views(r.1@)) == topic_table()[5],
{
    let mut stems: Vec<String> = Vec::new();
    stems.push(english_stem_of("wikipedia"));
    stems.push(english_stem_of("wiki"));
    stems.push(english_stem_of("docs"));
    stems.push(english_stem_of("documentation"));
    stems.push(english_stem_of("reference"));
    stems.push(english_stem_of("manual"));
    let name = String::from_str("Reference");
    assert(str_views(stems@) =~= topic_table()[5].1);
    (name, stems)
}

fn topic_entry_6() -> (r: (String, Vec<String>))
    ensures
        (r.0@, str_views(r.1@)) == topic_table()[6],
{
    let mut stems: Vec<String> = Vec::new();
    stems.push(english_stem_of("bank"));
    stems.push(english_stem_of("finance"));
    stems.push(english_stem_of("stock"));
    stems.push(english_stem_of("invest"));
    stems.push(english_stem_of("crypto"));
    stems.push(english_stem_of("money"));
    stems.push(english_stem_of("trading"));
    let name = String::from_str("Finance");
    assert(str_views(stems@) =~= topic_table()[6].1);
    (name, stems)
}

fn topic_entry_7() -> (r: (String, Vec<String>))
    ensures
        (r.0@, str_views(r.1@)) == topic_table()[7],
{
    let mut stems: Vec<String> = Vec::new();
    stems.push(english_stem_of("learn"));
    stems.push(english_stem_of("course"));
    stems.push(english_stem_of("tutorial"));
    stems.push(english_stem_of("education"));
    stems.push(english_stem_of("university"));
    stems.push(english_stem_of("school"));
    let name = String::from_str("Education");
    assert(str_views(stems@) =~= topic_table()[7].1);
    (name, stems)
}

fn topic_entry_8() -> (r: (String, Vec<String>))
    ensures
        (r.0@, str_views(r.1@)) == topic_table()[8],
{
    let mut stems: Vec<String> = Vec::new();
    stems.push(english_stem_of("rust"));
    stems.push(english_stem_of("python"));
    stems.push(english_stem_of("javascript"));
    stems.push(english_stem_of("java"));
    stems.push(english_stem_of("golang"));
    stems.push(english_stem_of("cpp"));
    stems.push(english_stem_of("typescript"));
    let name = String::from_str("Development");
    assert(str_views(stems@) =~= topic_table()[8].1);
    (name, stems)
}

fn topic_entry_9() -> (r: (String, Vec<String>))
    ensures
        (r.0@, str_views(r.1@)) == topic_table()[9],
{
    let mut stems: Vec<String> = Vec::new();
    stems.push(english_stem_of("aws"));
    stems.push(english_stem_of("azure"));
    stems.push(english_stem_of("gcp"));
    stems.push(english_stem_of("cloud"));
    stems.push(english_stem_of("kubernetes"));
    stems.push(english_stem_of("docker"));
    stems.push(english_stem_of("devops"));
    let name = String::from_str("Cloud");
    assert(str_views(stems@) =~= topic_table()[9].1);
    (name, stems)
}

/// Simple topic extractor using keyword matching.
pub struct TopicExtractor {
    topic_stems: Vec<(String, Vec<String>)>,
}

impl View for TopicExtractor {
    type V = Seq<(Seq<char>, Seq<Seq<char>>)>;

    closed spec fn view(&self) -> Seq<(Seq<char>, Seq<Seq<char>>)> {
        self.topic_stems@.map_values(|e: (String, Vec<String>)| (e.0@, str_views(e.1@)))
    }
}

/// The text that topics are read from: the lowercased name, domain and
/// URL, separated by spaces.
pub open spec fn topic_text(b: BookmarkView) -> Seq<char> {
    spec_to_lowercase(b.name) + " "@ + spec_to_lowercase(b.domain) + " "@ + spec_to_lowercase(b.url)
}

/// The predicate "longer than two bytes".
pub open spec fn longer_than_two() -> spec_fn(Seq<char>) -> bool {
    |s: Seq<char>| encode_utf8(s).len() > 2
}

/// The stemmed words of a bookmark: the alphanumeric runs of its topic
/// text longer than two bytes, each stemmed.
pub open spec fn tokens_of(b: BookmarkView) -> Seq<Seq<char>> {
    split_by(topic_text(b), not_alphanumeric()).filter(longer_than_two()).map_values(
        |s: Seq<char>| english_stem(s),
    )
}

/// The number of tokens that are among the stems.
pub open spec fn score(tokens: Seq<Seq<char>>, stems: Seq<Seq<char>>) -> int {
    tokens.filter(|t: Seq<char>| stems.contains(t)).len() as int
}

/// The best topic of `table` for `tokens`, with its score: the first topic
/// of highest score, or `None` with score 0 when no topic scores.
pub open spec fn best_topic(table: Seq<(Seq<char>, Seq<Seq<char>>)>, tokens: Seq<Seq<char>>) -> (
    Option<Seq<char>>,
    int,
)
    decreases table.len(),
{
    if table.len() == 0 {
        (None, 0)
    } else {
        let b = best_topic(table.drop_last(), tokens);
        let sc = score(tokens, table.last().1);
        if sc > b.1 {
            (Some(table.last().0), sc)
        } else {
            b
        }
    }
}

fn count_matches(tokens: &Vec<String>, stems: &Vec<String>) -> (r: usize)
    ensures
        r == score(str_views(tokens@), str_views(stems@)),
{
    let ghost sv = str_views(stems@);
    let ghost tv = str_views(tokens@);
    let ghost p = |t: Seq<char>| sv.contains(t);
    let mut n: usize = 0;
    let mut i: usize = 0;
    while i < tokens.len()
        invariant
            sv == str_views(stems@),
            tv == str_views(tokens@),
            p == (|t: Seq<char>| sv.contains(t)),
            i <= tokens@.len(),
            n == tv.take(i as int).filter(p).len(),
            n <= i,
        decreases tokens@.len() - i,
    {
        assert(tv.take(i + 1) =~= tv.take(i as int).push(tv[i as int]));
        proof {
            tv.take(i as int).lemma_filter_push(tv[i as int], p);
        }
        let mut j: usize = 0;
        let mut found = false;
        while j < stems.len()
            invariant
                sv == str_views(stems@),
                tv == str_views(tokens@),
                i < tokens@.len(),
                j <= stems@.len(),
                found ==> sv.contains(tv[i as int]),
                !found ==> forall|k: int| 0 <= k < j ==> sv[k] != tv[i as int],
            decreases stems@.len() - j,
        {
            if stems[j] == tokens[i] {
                found = true;
                assert(sv[j as int] == tv[i as int]);
            }
            j = j + 1;
        }
        assert(found == sv.contains(tv[i as int]));
        if found {
            n = n + 1;
        }
        i = i + 1;
    }
    assert(tv.take(tokens@.len() as int) =~= tv);
    n
}

impl TopicExtractor {
    pub fn new() -> (r: Self)
        ensures
            r@ == topic_table(),
    {
        let mut topic_stems: Vec<(String, Vec<String>)> = Vec::new();
        topic_stems.push(topic_entry_0());
        topic_stems.push(topic_entry_1());
        topic_stems.push(topic_entry_2());
        topic_stems.push(topic_entry_3());
        topic_stems.push(topic_entry_4());
        topic_stems.push(topic_entry_5());
        topic_stems.push(topic_entry_6());
        topic_stems.push(topic_entry_7());
        topic_stems.push(topic_entry_8());
        topic_stems.push(topic_entry_9());
        let r = Self { topic_stems };
        assert(r@ =~= topic_table());
        r
    }

    /// Extract a topic from a bookmark based on its name, URL, and domain.
    pub fn extract_topic(&self, bookmark: &Bookmark) -> (r: Option<String>)
        ensures
            opt_view(r) == best_topic(self@, tokens_of(bookmark@)).0,
    {
        let ghost table = self@;
        let name = to_lowercase(bookmark.name.as_str());
        let domain = to_lowercase(bookmark.domain.as_str());
        let url = to_lowercase(bookmark.url.as_str());
        let t1 = concat_strs(name.as_str(), " ");
        let t2 = concat_strs(t1.as_str(), domain.as_str());
        let t3 = concat_strs(t2.as_str(), " ");
        let text = concat_strs(t3.as_str(), url.as_str());
        assert(text@ =~= topic_text(bookmark@));
        let pieces = split_non_alphanumeric(text.as_str());
        let ghost pv = str_views(pieces@);
        let mut tokens: Vec<String> = Vec::new();
        let mut i: usize = 0;
        while i < pieces.len()
            invariant
                pv == str_views(pieces@),
                i <= pieces@.len(),
                str_views(tokens@) == pv.take(i as int).filter(longer_than_two()).map_values(
                    |s: Seq<char>| english_stem(s),
                ),
            decreases pieces@.len() - i,
        {
            let ghost before = str_views(tokens@);
            assert(pv.take(i + 1) =~= pv.take(i as int).push(pv[i as int]));
            proof {
                pv.take(i as int).lemma_filter_push(pv[i as int], longer_than_two());
            }
            if utf8_len_exceeds(pieces[i].as_str(), 2) {
                let st = english_stem_of(pieces[i].as_str());
                tokens.push(st);
                assert(str_views(tokens@) =~= before.push(english_stem(pv[i as int])));
            }
            i = i + 1;
            assert(str_views(tokens@) =~= pv.take(i as int).filter(longer_than_two()).map_values(
                |s: Seq<char>| english_stem(s),
            ));
        }
        assert(pv.take(pieces@.len() as int) =~= pv);
        assert(str_views(tokens@) == tokens_of(bookmark@));
        self.topic_for_tokens(&tokens)
    }

    /// The topic for already stemmed words: the first topic of the table
    /// with the most words among its stems, `None` when no word matches.
    pub fn topic_for_tokens(&self, tokens: &Vec<String>) -> (r: Option<String>)
        ensures
            opt_view(r) == best_topic(self@, str_views(tokens@)).0,
    {
        let ghost table = self@;
        let ghost tv = str_views(tokens@);
        let mut best: Option<usize> = None;
        let mut best_score: usize = 0;
        let mut k: usize = 0;
        while k < self.topic_stems.len()
            invariant
                table == self@,
                tv == str_views(tokens@),
                k <= self.topic_stems@.len(),
                best_topic(table.take(k as int), tv).1 == best_score,
                match best {
                    Some(b) => b < k && best_topic(table.take(k as int), tv).0 == Some(table[b as int].0),
                    None => best_topic(table.take(k as int), tv).0 is None,
                },
            decreases self.topic_stems@.len() - k,
        {
            assert(table.take(k + 1).drop_last() =~= table.take(k as int));
            assert(table[k as int] == (self.topic_stems@[k as int].0@, str_views(self.topic_stems@[k as int].1@)));
            let sc = count_matches(tokens, &self.topic_stems[k].1);
            if sc > best_score {
                best = Some(k);
                best_score = sc;
            }
            k = k + 1;
        }
        assert(table.take(self.topic_stems@.len() as int) =~= table);
        match best {
            Some(b) => {
                assert(table[b as int].0 == self.topic_stems@[b as int].0@);
                Some(self.topic_stems[b].0.clone())
            },
            None => None,
        }
    }

    /// Assign topics to all bookmarks.
    pub fn assign_topics(&self, bookmarks: &mut [Bookmark])
        ensures
            final(bookmarks)@.len() == old(bookmarks)@.len(),
            forall|i: int|
                0 <= i < final(bookmarks)@.len() ==> (#[trigger] final(bookmarks)@[i])@ == (
                BookmarkView {
                    topic: best_topic(self@, tokens_of(old(bookmarks)@[i]@)).0,
                    ..old(bookmarks)@[i]@
                }),
    {
        let mut i: usize = 0;
        while i < bookmarks.len()
            invariant
                bookmarks@.len() == old(bookmarks)@.len(),
                i <= bookmarks@.len(),
                forall|k: int|
                    0 <= k < i ==> (#[trigger] bookmarks@[k])@ == (BookmarkView {
                        topic: best_topic(self@, tokens_of(old(bookmarks)@[k]@)).0,
                        ..old(bookmarks)@[k]@
                    }),
                forall|k: int| i <= k < bookmarks@.len() ==> #[trigger] bookmarks@[k] == old(bookmarks)@[k],
            decreases bookmarks@.len() - i,
        {
            let t = self.extract_topic(&bookmarks[i]);
            let mut b = bookmarks[i].copy();
            b.topic = t;
            bookmarks[i] = b;
            i = i + 1;
        }
    }
}

impl Default for TopicExtractor {
    fn default() -> (r: Self)
        ensures
            r@ == topic_table(),
    {
        Self::new()
    }
}

/// The key of topic grouping: the bookmark's topic, or "Uncategorized".
pub open spec fn topic_key() -> spec_fn(BookmarkView) -> Seq<char> {
    |b: BookmarkView|
        match b.topic {
            Some(t) => t,
            None => "Uncategorized"@,
        }
}

/// Group bookmarks by their assigned topic ("Uncategorized" for those
/// without one), topics in order of first occurrence.
pub fn group_by_topic(bookmarks: &[Bookmark]) -> (r: Vec<(String, Vec<&Bookmark>)>)
    ensures
        is_grouping(r@, bookmark_views(bookmarks@), topic_key()),
{
    let mut keys: Vec<String> = Vec::new();
    let mut i: usize = 0;
    while i < bookmarks.len()
        invariant
            i <= bookmarks@.len(),
            keys@.len() == i,
            forall|k: int| 0 <= k < i ==> (#[trigger] keys@[k])@ == topic_key()(bookmarks@[k]@),
        decreases bookmarks@.len() - i,
    {
        let k = match &bookmarks[i].topic {
            Some(t) => t.clone(),
            None => String::from_str("Uncategorized"),
        };
        keys.push(k);
        i = i + 1;
    }
    group_by_keys(bookmarks, &keys, Ghost(topic_key()))
}

/// The number of bookmarks under each topic, most first, topics of equal
/// count in order of first occurrence.
pub fn topic_counts(bookmarks: &[Bookmark]) -> (r: Vec<NameCount>)
    ensures
        views_of(r@) == key_counts_spec(bookmark_views(bookmarks@), topic_key()),
{
    let groups = group_by_topic(bookmarks);
    count_groups(&groups, Ghost(bookmark_views(bookmarks@)), Ghost(topic_key()))
}


/// The best topic is the first of highest score: no topic scores more,
/// none is chosen when every topic scores zero, and a chosen topic is one
/// of the table with that score, ahead of every other topic that scores
/// as much.
pub proof fn law_best_topic(table: Seq<(Seq<char>, Seq<Seq<char>>)>, tokens: Seq<Seq<char>>)
    ensures
        best_topic(table, tokens).1 >= 0,
        forall|j: int|
            0 <= j < table.len() ==> score(tokens, (#[trigger] table[j]).1) <= best_topic(table, tokens).1,
        best_topic(table, tokens).0 is None <==> best_topic(table, tokens).1 == 0,
        best_topic(table, tokens).0 is Some ==> exists|i: int|
            0 <= i < table.len() && (#[trigger] table[i]).0 == best_topic(table, tokens).0->0 && score(
                tokens,
                table[i].1,
            ) == best_topic(table, tokens).1 && forall|j: int|
                0 <= j < i ==> score(tokens, (#[trigger] table[j]).1) < best_topic(table, tokens).1,
    decreases table.len(),
{
    if table.len() > 0 {
        let t0 = table.drop_last();
        law_best_topic(t0, tokens);
        let b = best_topic(t0, tokens);
        let sc = score(tokens, table.last().1);
        assert forall|j: int| 0 <= j < table.len() implies score(tokens, (#[trigger] table[j]).1)
            <= best_topic(table, tokens).1 by {
            if j < table.len() - 1 {
                assert(table[j] == t0[j]);
            }
        }
        if sc > b.1 {
            assert(table[table.len() - 1].0 == best_topic(table, tokens).0->0);
            assert forall|j: int| 0 <= j < table.len() - 1 implies score(tokens, (#[trigger] table[j]).1)
                < best_topic(table, tokens).1 by {
                assert(table[j] == t0[j]);
            }
        } else if b.0 is Some {
            let i = choose|i: int|
                0 <= i < t0.len() && (#[trigger] t0[i]).0 == b.0->0 && score(tokens, t0[i].1) == b.1
                    && forall|j: int| 0 <= j < i ==> score(tokens, (#[trigger] t0[j]).1) < b.1;
            assert(table[i] == t0[i]);
            assert forall|j: int| 0 <= j < i implies score(tokens, (#[trigger] table[j]).1) < b.1 by {
                assert(table[j] == t0[j]);
            }
        }
    }
}


/// Counting the mapped elements of a filtered sequence that meet `q` counts
/// the elements that meet both tests.
proof fn lemma_filter_map_count(
    s: Seq<Seq<char>>,
    p: spec_fn(Seq<char>) -> bool,
    f: spec_fn(Seq<char>) -> Seq<char>,
    q: spec_fn(Seq<char>) -> bool,
    pq: spec_fn(Seq<char>) -> bool,
)
    requires
        forall|x: Seq<char>| #[trigger] pq(x) == (p(x) && q(f(x))),
    ensures
        s.filter(p).map_values(f).filter(q).len() == s.filter(pq).len(),
    decreases s.len(),
{
    if s.len() == 0 {
        assert(s.filter(p) =~= Seq::<Seq<char>>::empty());
        assert(s.filter(pq) =~= Seq::<Seq<char>>::empty());
        assert(s.filter(p).map_values(f) =~= Seq::<Seq<char>>::empty());
        assert(s.filter(p).map_values(f).filter(q) =~= Seq::<Seq<char>>::empty());
    } else {
        let s0 = s.drop_last();
        let x = s.last();
        lemma_filter_map_count(s0, p, f, q, pq);
        assert(s0.push(x) =~= s);
        s0.lemma_filter_push(x, p);
        s0.lemma_filter_push(x, pq);
        if p(x) {
            assert(s0.filter(p).push(x).map_values(f) =~= s0.filter(p).map_values(f).push(f(x)));
            s0.filter(p).map_values(f).lemma_filter_push(f(x), q);
        }
    }
}

/// Which words of a bookmark are matched against the topics: every
/// alphanumeric run of its lowercased name, domain and URL that is three
/// or more UTF-8 bytes long is stemmed and kept, in order (so three-letter
/// words such as "aws" or "cnn" count), and nothing else. A topic's score
/// is the number of such words whose stem is among the topic's stems.
pub proof fn law_topic_words(b: BookmarkView, stems: Seq<Seq<char>>)
    ensures
        tokens_of(b) == split_by(topic_text(b), not_alphanumeric()).filter(
            |s: Seq<char>| encode_utf8(s).len() >= 3,
        ).map_values(|s: Seq<char>| english_stem(s)),
        forall|i: int|
            0 <= i < split_by(topic_text(b), not_alphanumeric()).len() && encode_utf8(
                #[trigger] split_by(topic_text(b), not_alphanumeric())[i],
            ).len() >= 3 ==> tokens_of(b).contains(
                english_stem(split_by(topic_text(b), not_alphanumeric())[i]),
            ),
        score(tokens_of(b), stems) == split_by(topic_text(b), not_alphanumeric()).filter(
            |s: Seq<char>| encode_utf8(s).len() >= 3 && stems.contains(english_stem(s)),
        ).len(),
{
    let pieces = split_by(topic_text(b), not_alphanumeric());
    let p3 = |s: Seq<char>| encode_utf8(s).len() >= 3;
    let st = |s: Seq<char>| english_stem(s);
    assert(longer_than_two() =~= p3);
    assert(tokens_of(b) == pieces.filter(p3).map_values(st));
    assert forall|i: int|
        0 <= i < pieces.len() && encode_utf8(#[trigger] pieces[i]).len() >= 3 implies tokens_of(
        b,
    ).contains(english_stem(pieces[i])) by {
        pieces.lemma_filter_contains(p3, i);
        let j = choose|j: int| 0 <= j < pieces.filter(p3).len() && pieces.filter(p3)[j] == pieces[i];
        assert(tokens_of(b)[j] == english_stem(pieces[i]));
    }
    let q = |t: Seq<char>| stems.contains(t);
    let pq = |s: Seq<char>| encode_utf8(s).len() >= 3 && stems.contains(english_stem(s));
    lemma_filter_map_count(pieces, p3, st, q, pq);
}

} // verus!
