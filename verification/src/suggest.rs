//! Suggestions: the words of the titles of all pages, and which of them complete a prefix.

use crate::document::Document;
use crate::text;
use vstd::hash_map::StringHashMap;
use vstd::hash_set::StringHashSet;
use vstd::prelude::*;
use vstd::relations::*;
use vstd::string::*;
use vstd::utf8::*;

verus! {

/// A word and the number of pages whose titles hold it.
#[derive(Debug)]
pub struct SuggestionEntry {
    pub word: String,
    pub count: u32,
}

/// An entry as mathematics.
#[verifier::ext_equal]
pub struct EntryView {
    pub word: Seq<char>,
    pub count: u32,
}

impl View for SuggestionEntry {
    type V = EntryView;

    open spec fn view(&self) -> EntryView {
        EntryView { word: self.word@, count: self.count }
    }
}

/// The views of a sequence of entries.
pub open spec fn entry_views(entries: Seq<SuggestionEntry>) -> Seq<EntryView> {
    entries.map_values(|e: SuggestionEntry| e@)
}

/// What separates the title of a page from the name of its site.
pub open spec fn separators() -> Seq<Seq<char>> {
    seq![" | "@, " – "@, " — "@, " :: "@, " » "@, " - "@]
}

/// `s` begins with a separator.
pub open spec fn separator_first(s: Seq<char>) -> bool {
    exists|k: int| 0 <= k < separators().len() && text::occurs_at(s, #[trigger] separators()[k], 0)
}

/// The number of characters before the first separator in `s`, or the length of `s` where there is
/// none.
pub open spec fn before_separator(s: Seq<char>) -> int
    decreases s.len(),
{
    if s.len() == 0 || separator_first(s) {
        0
    } else {
        1 + before_separator(s.drop_first())
    }
}

/// The part of a title that names the page: what stands before the first separator, without white
/// space at either end.
pub open spec fn title_segment(title: Seq<char>) -> Seq<char> {
    text::trimmed(title.take(before_separator(title)))
}

/// The part of a title that names the page.
pub fn first_title_segment<'a>(title: &'a str) -> (r: &'a str)
    ensures
        r@ == title_segment(title@),
{
    let a = text::chars_of(title);
    let marks: Vec<&str> = vec![" | ", " – ", " — ", " :: ", " » ", " - "];
    assert(marks.deep_view() == separators());
    let mut i: usize = 0;
    assert(a@.skip(0) == a@);
    while i < a.len() && !any_mark_at(&a, &marks, i)
        invariant
            i <= a.len(),
            a@ == title@,
            marks.deep_view() == separators(),
            before_separator(a@) == i + before_separator(a@.skip(i as int)),
        decreases a.len() - i,
    {
        assert(a@.skip(i as int).drop_first() == a@.skip(i + 1));
        i = i + 1;
    }
    text::trim(title.substring_char(0, i))
}

fn any_mark_at(a: &Vec<char>, marks: &Vec<&str>, at: usize) -> (r: bool)
    requires
        marks.deep_view() == separators(),
        at <= a.len(),
    ensures
        r == separator_first(a@.skip(at as int)),
{
    let ghost rest = a@.skip(at as int);
    let mut k: usize = 0;
    while k < marks.len()
        invariant
            k <= marks.len(),
            at <= a.len(),
            rest == a@.skip(at as int),
            marks.deep_view() == separators(),
            forall|j: int| 0 <= j < k ==> !text::occurs_at(rest, #[trigger] separators()[j], 0),
        decreases marks.len() - k,
    {
        let mark = text::chars_of(marks[k]);
        assert(separators()[k as int] == mark@);
        assert(at + mark@.len() <= a.len() ==> rest.subrange(0, mark@.len() as int) == a@.subrange(
            at as int,
            at + mark@.len(),
        ));
        if text::matches_at(a, &mark, at) {
            assert(text::occurs_at(rest, separators()[k as int], 0));
            return true;
        }
        k = k + 1;
    }
    false
}

/// What `char::is_alphanumeric` says of a character: it has one of the Unicode properties
/// `Alphabetic` and `Numeric`.
pub uninterp spec fn alphanumeric(c: char) -> bool;

/// `char::is_alphanumeric` tells letters and digits, a function of the character alone.
pub assume_specification[ char::is_alphanumeric ](c: char) -> (r: bool)
    ensures
        r == alphanumeric(c),
;

/// The characters that the words of a title are made of.
pub open spec fn letters() -> spec_fn(char) -> bool {
    |c: char| alphanumeric(c)
}

/// `word` is worth suggesting.
pub open spec fn long_enough(word: Seq<char>) -> bool {
    encode_utf8(word).len() >= 2
}

/// `word` is a word of `title`, in lower case, and worth suggesting.
pub open spec fn word_of_title(title: Seq<char>, word: Seq<char>) -> bool {
    long_enough(word) && exists|i: int|
        0 <= i < text::runs_of(title_segment(title), letters()).len() && text::lowercase(
            #[trigger] text::runs_of(title_segment(title), letters())[i],
        ) == word
}

/// The number of `titles` that hold `word`.
pub open spec fn title_count(titles: Seq<Seq<char>>, word: Seq<char>) -> nat
    decreases titles.len(),
{
    if titles.len() == 0 {
        0
    } else {
        title_count(titles.drop_last(), word) + if word_of_title(titles.last(), word) {
            1nat
        } else {
            0nat
        }
    }
}

/// The titles of `documents`.
pub open spec fn titles_of(documents: Seq<Document>) -> Seq<Seq<char>> {
    documents.map_values(|d: Document| d.title@)
}

/// The entries are in the order of their words, and no word has two.
pub open spec fn strictly_sorted(entries: Seq<EntryView>) -> bool {
    forall|i: int, j: int|
        0 <= i < j < entries.len() ==> text::lex_lt(
            (#[trigger] entries[i]).word,
            (#[trigger] entries[j]).word,
        )
}

/// `entries` has one entry for each word of `titles`, with the number of titles that hold it.
pub open spec fn counts_titles(entries: Seq<EntryView>, titles: Seq<Seq<char>>) -> bool {
    &&& forall|i: int|
        0 <= i < entries.len() ==> (#[trigger] entries[i]).count == title_count(
            titles,
            entries[i].word,
        ) && entries[i].count > 0
    &&& forall|word: Seq<char>| #[trigger]
        title_count(titles, word) > 0 ==> exists|i: int|
            0 <= i < entries.len() && (#[trigger] entries[i]).word == word
}

/// Those of `words` that are worth suggesting, each once.
pub fn worth_suggesting(words: &Vec<String>) -> (r: Vec<String>)
    ensures
        forall|word: Seq<char>| #[trigger]
            r.deep_view().contains(word) <==> long_enough(word) && words.deep_view().contains(word),
        r.deep_view().no_duplicates(),
{
    let ghost views = words.deep_view();
    let mut r: Vec<String> = Vec::new();
    let mut seen = StringHashSet::new();
    let mut k: usize = 0;
    while k < words.len()
        invariant
            k <= words.len(),
            words.deep_view() == views,
            r.deep_view().no_duplicates(),
            forall|word: Seq<char>|
                seen@.contains(word) <==> #[trigger] r.deep_view().contains(word),
            forall|word: Seq<char>| #[trigger]
                r.deep_view().contains(word) <==> long_enough(word) && views.take(
                    k as int,
                ).contains(word),
        decreases words.len() - k,
    {
        let ghost before = r.deep_view();
        let ghost view = views[k as int];
        let word = &words[k];
        assert(view == word@);
        assert(views.take(k + 1) == views.take(k as int).push(view));
        if word.as_str().as_bytes().len() >= 2 && !seen.contains(word.as_str()) {
            assert(!before.contains(view));
            seen.insert(word.clone());
            r.push(word.clone());
            assert(r.deep_view() == before.push(view));
            assert forall|w: Seq<char>| #[trigger] r.deep_view().contains(w) <==> before.contains(w)
                || w == view by {
                lemma_word_pushed(before, view, w);
            }
            assert forall|i: int, j: int|
                0 <= i < r.len() && 0 <= j < r.len() && i != j implies r.deep_view()[i]
                != r.deep_view()[j] by {
                assert(i < before.len() ==> before.contains(before[i]));
                assert(j < before.len() ==> before.contains(before[j]));
            }
        }
        assert forall|w: Seq<char>| #[trigger] r.deep_view().contains(w) <==> long_enough(w)
            && views.take(k + 1).contains(w) by {
            lemma_word_pushed(views.take(k as int), view, w);
            assert(before.contains(w) <==> long_enough(w) && views.take(k as int).contains(w));
        }
        k = k + 1;
    }
    assert(views.take(words.len() as int) == views);
    r
}

proof fn lemma_word_pushed(words: Seq<Seq<char>>, last: Seq<char>, w: Seq<char>)
    ensures
        words.push(last).contains(w) <==> words.contains(w) || w == last,
{
    if words.contains(w) {
        let k = choose|k: int| 0 <= k < words.len() && words[k] == w;
        assert(words.push(last)[k] == w);
    }
    assert(words.push(last)[words.len() as int] == last);
}

/// The words of a title that are worth suggesting, each once.
pub fn title_words(title: &str) -> (r: Vec<String>)
    ensures
        forall|word: Seq<char>| word_of_title(title@, word) <==> #[trigger] r.deep_view().contains(word),
        r.deep_view().no_duplicates(),
{
    let segment = first_title_segment(title);
    let a = text::chars_of(segment);
    let mut mask: Vec<bool> = Vec::new();
    let mut i: usize = 0;
    while i < a.len()
        invariant
            i <= a.len(),
            mask.len() == i,
            forall|j: int| 0 <= j < i ==> mask@[j] == alphanumeric(#[trigger] a@[j]),
        decreases a.len() - i,
    {
        mask.push(a[i].is_alphanumeric());
        i = i + 1;
    }
    let runs = text::masked_runs(&a, &mask, Ghost(letters()));
    let ghost views = text::runs_of(segment@, letters());
    assert(runs.deep_view() == views);
    let mut lowered: Vec<String> = Vec::new();
    let mut k: usize = 0;
    while k < runs.len()
        invariant
            k <= runs.len(),
            runs.deep_view() == views,
            lowered.len() == k,
            forall|j: int|
                0 <= j < k ==> (#[trigger] lowered.deep_view()[j]) == text::lowercase(views[j]),
        decreases runs.len() - k,
    {
        let ghost before = lowered.deep_view();
        assert(views[k as int] == runs@[k as int]@);
        let word = runs[k].as_str().to_lowercase();
        let ghost view = word@;
        lowered.push(word);
        assert(lowered.deep_view() == before.push(view));
        k = k + 1;
    }
    let r = worth_suggesting(&lowered);
    assert forall|word: Seq<char>|
        word_of_title(title@, word) <==> #[trigger] r.deep_view().contains(word) by {
        let all = lowered.deep_view();
        if all.contains(word) {
            let j = choose|j: int| 0 <= j < all.len() && all[j] == word;
            assert(text::lowercase(views[j]) == word);
        }
        if word_of_title(title@, word) {
            let j = choose|j: int|
                0 <= j < views.len() && text::lowercase(#[trigger] views[j]) == word;
            assert(all[j] == word);
        }
    }
    r
}

/// `places` says where in `entries` the entry of each word stands.
spec fn indexed(entries: Seq<SuggestionEntry>, places: Map<Seq<char>, usize>) -> bool {
    &&& forall|word: Seq<char>| #[trigger]
        places.contains_key(word) ==> places[word] < entries.len() && entries[places[word] as int].word@
            == word && entries[places[word] as int].count > 0
    &&& forall|i: int|
        0 <= i < entries.len() ==> places.contains_key((#[trigger] entries[i]).word@)
            && places[entries[i].word@] == i
}

/// How often `word` was counted.
spec fn tally(entries: Seq<SuggestionEntry>, places: Map<Seq<char>, usize>, word: Seq<char>) -> nat {
    if places.contains_key(word) {
        entries[places[word] as int].count as nat
    } else {
        0
    }
}

fn tally_word(
    entries: &mut Vec<SuggestionEntry>,
    places: &mut StringHashMap<usize>,
    word: &String,
)
    requires
        indexed(old(entries)@, old(places)@),
        tally(old(entries)@, old(places)@, word@) < u32::MAX,
    ensures
        indexed(final(entries)@, final(places)@),
        forall|w: Seq<char>| #[trigger]
            tally(final(entries)@, final(places)@, w) == tally(old(entries)@, old(places)@, w) + if w
                == word@ {
                1nat
            } else {
                0nat
            },
{
    let place = match places.get(word.as_str()) {
        Some(p) => Some(*p),
        None => None,
    };
    match place {
        Some(p) => {
            let count: u32 = entries[p].count;
            entries[p].count = count + 1;
        },
        None => {
            places.insert(word.clone(), entries.len());
            entries.push(SuggestionEntry { word: word.clone(), count: 1 });
        },
    }
}

proof fn lemma_title_count_bound(titles: Seq<Seq<char>>, word: Seq<char>)
    ensures
        title_count(titles, word) <= titles.len(),
    decreases titles.len(),
{
    if titles.len() > 0 {
        lemma_title_count_bound(titles.drop_last(), word);
    }
}

/// The entries of all words of all titles, in no particular order.
fn count_titles(documents: &Vec<Document>) -> (r: Vec<SuggestionEntry>)
    requires
        documents.len() <= u32::MAX,
    ensures
        counts_titles(entry_views(r@), titles_of(documents@)),
        forall|i: int, j: int|
            0 <= i < j < r.len() ==> (#[trigger] r@[i]).word@ != (#[trigger] r@[j]).word@,
{
    let ghost titles = titles_of(documents@);
    let mut entries: Vec<SuggestionEntry> = Vec::new();
    let mut places: StringHashMap<usize> = StringHashMap::new();
    let mut n: usize = 0;
    while n < documents.len()
        invariant
            n <= documents.len() <= u32::MAX,
            titles == titles_of(documents@),
            indexed(entries@, places@),
            forall|w: Seq<char>| #[trigger]
                tally(entries@, places@, w) == title_count(titles.take(n as int), w),
        decreases documents.len() - n,
    {
        let words = title_words(documents[n].title.as_str());
        let ghost views = words.deep_view();
        let mut j: usize = 0;
        while j < words.len()
            invariant
                j <= words.len(),
                n < documents.len() <= u32::MAX,
                titles == titles_of(documents@),
                views == words.deep_view(),
                views.no_duplicates(),
                indexed(entries@, places@),
                forall|w: Seq<char>| #[trigger]
                    tally(entries@, places@, w) == title_count(titles.take(n as int), w)
                        + if views.take(j as int).contains(w) {
                        1nat
                    } else {
                        0nat
                    },
            decreases words.len() - j,
        {
            let ghost word = views[j as int];
            let ghost before = views.take(j as int);
            let ghost now = views.take(j + 1);
            assert(word == words@[j as int]@);
            assert(!before.contains(word));
            proof {
                lemma_title_count_bound(titles.take(n as int), word);
            }
            assert(tally(entries@, places@, word) <= n);
            tally_word(&mut entries, &mut places, &words[j]);
            assert forall|w: Seq<char>| now.contains(w) <==> before.contains(w) || w == word by {
                if before.contains(w) {
                    let k = choose|k: int| 0 <= k < before.len() && before[k] == w;
                    assert(now[k] == w);
                }
                assert(now[j as int] == word);
                if now.contains(w) && w != word {
                    let k = choose|k: int| 0 <= k < now.len() && now[k] == w;
                    assert(before[k] == w);
                }
            }
            j = j + 1;
        }
        assert(views.take(words.len() as int) == views);
        assert(titles.take(n + 1).drop_last() == titles.take(n as int));
        assert(titles.take(n + 1).last() == documents@[n as int].title@);
        assert forall|w: Seq<char>| #[trigger]
            tally(entries@, places@, w) == title_count(titles.take(n + 1), w) by {
            assert(word_of_title(documents@[n as int].title@, w) <==> views.contains(w));
        }
        n = n + 1;
    }
    assert(titles.take(documents.len() as int) == titles);
    proof {
        let r = entry_views(entries@);
        assert forall|i: int| 0 <= i < r.len() implies (#[trigger] r[i]).count == title_count(
            titles,
            r[i].word,
        ) && r[i].count > 0 by {
            let word = entries@[i].word@;
            assert(tally(entries@, places@, word) == title_count(titles, word));
        }
        assert forall|word: Seq<char>| #[trigger] title_count(titles, word) > 0 implies exists|i: int|
            0 <= i < r.len() && (#[trigger] r[i]).word == word by {
            assert(tally(entries@, places@, word) == title_count(titles, word));
            assert(r[places@[word] as int].word == word);
        }
    }
    entries
}

/// The word of the entry `x` comes before that of the entry `y`.
spec fn precedes(entries: Seq<SuggestionEntry>, x: usize, y: usize) -> bool {
    text::lex_lt(entries[x as int].word@, entries[y as int].word@)
}

/// `order` lists entries in the order of their words.
spec fn ordered(entries: Seq<SuggestionEntry>, order: Seq<usize>) -> bool {
    &&& forall|i: int| 0 <= i < order.len() ==> (#[trigger] order[i]) < entries.len()
    &&& forall|i: int, j: int|
        0 <= i < j < order.len() ==> precedes(entries, #[trigger] order[i], #[trigger] order[j])
}

/// No two entries have the same word.
spec fn distinct_words(entries: Seq<SuggestionEntry>) -> bool {
    forall|i: int, j: int|
        0 <= i < j < entries.len() ==> (#[trigger] entries[i]).word@ != (#[trigger] entries[j]).word@
}

fn merge_orders(entries: &Vec<SuggestionEntry>, a: &Vec<usize>, b: &Vec<usize>) -> (r: Vec<usize>)
    requires
        distinct_words(entries@),
        ordered(entries@, a@),
        ordered(entries@, b@),
        forall|i: int, j: int|
            0 <= i < a.len() && 0 <= j < b.len() ==> #[trigger] a@[i] != #[trigger] b@[j],
    ensures
        ordered(entries@, r@),
        forall|x: usize| #[trigger] r@.contains(x) <==> a@.contains(x) || b@.contains(x),
{
    let ghost es = entries@;
    let mut r: Vec<usize> = Vec::new();
    let mut i: usize = 0;
    let mut j: usize = 0;
    while i < a.len() || j < b.len()
        invariant
            es == entries@,
            i <= a.len(),
            j <= b.len(),
            distinct_words(es),
            ordered(es, a@),
            ordered(es, b@),
            ordered(es, r@),
            forall|i: int, j: int|
                0 <= i < a.len() && 0 <= j < b.len() ==> #[trigger] a@[i] != #[trigger] b@[j],
            forall|k: int, m: int|
                0 <= k < r.len() && i <= m < a.len() ==> precedes(
                    es,
                    #[trigger] r@[k],
                    #[trigger] a@[m],
                ),
            forall|k: int, m: int|
                0 <= k < r.len() && j <= m < b.len() ==> precedes(
                    es,
                    #[trigger] r@[k],
                    #[trigger] b@[m],
                ),
            forall|x: usize| #[trigger]
                r@.contains(x) <==> a@.take(i as int).contains(x) || b@.take(j as int).contains(x),
        decreases a.len() - i + b.len() - j,
    {
        let ghost before = r@;
        let take_first = j == b.len() || (i < a.len() && text::text_lt(
            entries[a[i]].word.as_str(),
            entries[b[j]].word.as_str(),
        ));
        let next: usize = if take_first {
            a[i]
        } else {
            b[j]
        };
        proof {
            if i < a.len() && j < b.len() {
                text::lemma_lex_total(es[a@[i as int] as int].word@, es[b@[j as int] as int].word@);
                assert forall|m: int| take_first && j <= m < b.len() implies precedes(
                    es,
                    next,
                    #[trigger] b@[m],
                ) by {
                    if m > j {
                        assert(precedes(es, b@[j as int], b@[m]));
                        text::lemma_lex_transitive(
                            es[next as int].word@,
                            es[b@[j as int] as int].word@,
                            es[b@[m] as int].word@,
                        );
                    }
                }
                assert forall|m: int| !take_first && i <= m < a.len() implies precedes(
                    es,
                    next,
                    #[trigger] a@[m],
                ) by {
                    if m > i {
                        assert(precedes(es, a@[i as int], a@[m]));
                        text::lemma_lex_transitive(
                            es[next as int].word@,
                            es[a@[i as int] as int].word@,
                            es[a@[m] as int].word@,
                        );
                    }
                }
            }
            if take_first {
                assert(a@.take(i + 1) == a@.take(i as int).push(next));
            } else {
                assert(b@.take(j + 1) == b@.take(j as int).push(next));
            }
        }
        r.push(next);
        proof {
            let now_a = if take_first {
                a@.take(i + 1)
            } else {
                a@.take(i as int)
            };
            let now_b = if take_first {
                b@.take(j as int)
            } else {
                b@.take(j + 1)
            };
            assert forall|x: usize| #[trigger] r@.contains(x) <==> now_a.contains(x) || now_b.contains(
                x,
            ) by {
                lemma_push_contains(before, next, x);
                lemma_push_contains(a@.take(i as int), next, x);
                lemma_push_contains(b@.take(j as int), next, x);
                assert(before.contains(x) <==> a@.take(i as int).contains(x) || b@.take(
                    j as int,
                ).contains(x));
            }
        }
        if take_first {
            i = i + 1;
        } else {
            j = j + 1;
        }
    }
    assert(a@.take(a.len() as int) == a@);
    assert(b@.take(b.len() as int) == b@);
    r
}

proof fn lemma_push_contains(s: Seq<usize>, last: usize, x: usize)
    ensures
        s.push(last).contains(x) <==> s.contains(x) || x == last,
{
    if s.contains(x) {
        let k = choose|k: int| 0 <= k < s.len() && s[k] == x;
        assert(s.push(last)[k] == x);
    }
    assert(s.push(last)[s.len() as int] == last);
}

fn sort_range(entries: &Vec<SuggestionEntry>, from: usize, to: usize) -> (r: Vec<usize>)
    requires
        distinct_words(entries@),
        from <= to <= entries.len(),
    ensures
        ordered(entries@, r@),
        forall|x: usize| #[trigger] r@.contains(x) <==> from <= x < to,
    decreases to - from,
{
    let mut r: Vec<usize> = Vec::new();
    if from == to {
        return r;
    }
    if to - from == 1 {
        r.push(from);
        assert(r@[0] == from);
        return r;
    }
    let middle: usize = from + (to - from) / 2;
    let a = sort_range(entries, from, middle);
    let b = sort_range(entries, middle, to);
    assert forall|i: int, j: int| 0 <= i < a.len() && 0 <= j < b.len() implies #[trigger] a@[i]
        != #[trigger] b@[j] by {
        assert(a@.contains(a@[i]));
        assert(b@.contains(b@[j]));
    }
    merge_orders(entries, &a, &b)
}

/// The words of the titles of `documents`, in their order, with the number of titles that hold them.
pub fn build_suggestion_entries(documents: &Vec<Document>) -> (r: Vec<SuggestionEntry>)
    requires
        documents.len() <= u32::MAX,
    ensures
        strictly_sorted(entry_views(r@)),
        counts_titles(entry_views(r@), titles_of(documents@)),
{
    let entries = count_titles(documents);
    let ghost titles = titles_of(documents@);
    let ghost counted = entry_views(entries@);
    let order = sort_range(&entries, 0, entries.len());
    let mut r: Vec<SuggestionEntry> = Vec::new();
    let mut i: usize = 0;
    while i < order.len()
        invariant
            i <= order.len(),
            r.len() == i,
            ordered(entries@, order@),
            forall|k: int| 0 <= k < i ==> (#[trigger] r@[k])@ == entries@[order@[k] as int]@,
        decreases order.len() - i,
    {
        let entry = &entries[order[i]];
        r.push(SuggestionEntry { word: entry.word.clone(), count: entry.count });
        i = i + 1;
    }
    proof {
        let sorted = entry_views(r@);
        assert forall|i: int, j: int| 0 <= i < j < sorted.len() implies text::lex_lt(
            (#[trigger] sorted[i]).word,
            (#[trigger] sorted[j]).word,
        ) by {
            assert(precedes(entries@, order@[i], order@[j]));
            assert(sorted[i] == r@[i]@ && sorted[j] == r@[j]@);
        }
        assert forall|i: int| 0 <= i < sorted.len() implies (#[trigger] sorted[i]).count
            == title_count(titles, sorted[i].word) && sorted[i].count > 0 by {
            assert(sorted[i] == r@[i]@);
            assert(sorted[i] == counted[order@[i] as int]);
        }
        assert forall|word: Seq<char>| #[trigger] title_count(titles, word) > 0 implies exists|i: int|
            0 <= i < sorted.len() && (#[trigger] sorted[i]).word == word by {
            let k = choose|k: int| 0 <= k < counted.len() && (#[trigger] counted[k]).word == word;
            assert(order@.contains(k as usize));
            let m = choose|m: int| 0 <= m < order.len() && order@[m] == k as usize;
            assert(sorted[m] == r@[m]@);
            assert(sorted[m].word == word);
        }
    }
    r
}

/// `a` is shown before `b` or in its place: the word of more titles first, and of two words of
/// equally many titles the one that comes first in the order of texts.
pub open spec fn ranks_first(a: EntryView, b: EntryView) -> bool {
    a.count > b.count || (a.count == b.count && text::lex_le(a.word, b.word))
}

/// The order in which entries are shown.
pub open spec fn rank() -> spec_fn(EntryView, EntryView) -> bool {
    |a: EntryView, b: EntryView| ranks_first(a, b)
}

/// The order in which entries are shown is total: of two entries one is shown first, and only the
/// same entry stands in the same place.
pub proof fn lemma_rank_is_total_order()
    ensures
        total_ordering(rank()),
{
    let le = rank();
    assert forall|a: EntryView| #[trigger] le(a, a) by {
        text::lemma_lex_irreflexive(a.word);
    }
    assert forall|a: EntryView, b: EntryView| #[trigger] le(a, b) && #[trigger] le(b, a) implies a
        == b by {
        text::lemma_lex_total(a.word, b.word);
    }
    assert forall|a: EntryView, b: EntryView, c: EntryView| #[trigger] le(a, b) && #[trigger] le(
        b,
        c,
    ) implies le(a, c) by {
        if text::lex_lt(c.word, a.word) {
            text::lemma_lex_total(a.word, b.word);
            text::lemma_lex_total(b.word, c.word);
            if text::lex_lt(a.word, b.word) && text::lex_lt(b.word, c.word) {
                text::lemma_lex_transitive(a.word, b.word, c.word);
            }
            text::lemma_lex_asymmetric(a.word, c.word);
        }
    }
    assert forall|a: EntryView, b: EntryView| #[trigger] le(a, b) || #[trigger] le(b, a) by {
        text::lemma_lex_asymmetric(a.word, b.word);
    }
}

/// The entries whose words begin with `prefix`, in order.
pub open spec fn completions(entries: Seq<EntryView>, prefix: Seq<char>) -> Seq<EntryView> {
    entries.filter(|e: EntryView| prefix.is_prefix_of(e.word))
}

/// The words of `entries`.
pub open spec fn words_in(entries: Seq<EntryView>) -> Seq<Seq<char>> {
    entries.map_values(|e: EntryView| e.word)
}

/// The first `limit` of `entries` in the order in which they are shown.
pub open spec fn best(entries: Seq<EntryView>, limit: nat) -> Seq<EntryView> {
    let ranked = entries.sort_by(rank());
    if ranked.len() <= limit {
        ranked
    } else {
        ranked.take(limit as int)
    }
}

/// The words are in the order of texts.
pub open spec fn sorted(entries: Seq<EntryView>) -> bool {
    forall|i: int, j: int|
        0 <= i < j < entries.len() ==> text::lex_le(
            (#[trigger] entries[i]).word,
            (#[trigger] entries[j]).word,
        )
}

/// How many of `entries`, from the first on, begin with `prefix`.
pub open spec fn prefix_run(entries: Seq<EntryView>, prefix: Seq<char>) -> nat
    decreases entries.len(),
{
    if entries.len() == 0 || !prefix.is_prefix_of(entries[0].word) {
        0
    } else {
        1 + prefix_run(entries.drop_first(), prefix)
    }
}

/// The entries from `start` on that begin with `prefix`, up to the first that does not.
pub open spec fn run_at(entries: Seq<EntryView>, start: int, prefix: Seq<char>) -> Seq<EntryView> {
    entries.subrange(start, start + prefix_run(entries.skip(start), prefix))
}

/// The place of `e` in `ranked`: before the first entry that it is shown before.
spec fn place(ranked: Seq<EntryView>, e: EntryView) -> int
    decreases ranked.len(),
{
    if ranked.len() == 0 || !ranks_first(ranked[0], e) {
        0
    } else {
        1 + place(ranked.drop_first(), e)
    }
}

proof fn lemma_place(ranked: Seq<EntryView>, e: EntryView)
    ensures
        0 <= place(ranked, e) <= ranked.len(),
        forall|i: int| 0 <= i < place(ranked, e) ==> ranks_first(#[trigger] ranked[i], e),
        place(ranked, e) < ranked.len() ==> !ranks_first(ranked[place(ranked, e)], e),
    decreases ranked.len(),
{
    if ranked.len() > 0 && ranks_first(ranked[0], e) {
        let rest = ranked.drop_first();
        lemma_place(rest, e);
        assert forall|i: int| 0 <= i < place(ranked, e) implies ranks_first(
            #[trigger] ranked[i],
            e,
        ) by {
            if i > 0 {
                assert(rest[i - 1] == ranked[i]);
            }
        }
    }
}

proof fn lemma_place_is(ranked: Seq<EntryView>, e: EntryView, at: int)
    requires
        0 <= at <= ranked.len(),
        forall|i: int| 0 <= i < at ==> ranks_first(#[trigger] ranked[i], e),
        at < ranked.len() ==> !ranks_first(ranked[at], e),
    ensures
        place(ranked, e) == at,
{
    lemma_place(ranked, e);
    let p = place(ranked, e);
    assert(p < at ==> ranks_first(ranked[p], e));
}

proof fn lemma_ranking_one_more(entries: Seq<EntryView>, e: EntryView)
    ensures
        entries.push(e).sort_by(rank()) == entries.sort_by(rank()).insert(
            place(entries.sort_by(rank()), e),
            e,
        ),
        entries.sort_by(rank()).len() == entries.len(),
{
    broadcast use vstd::seq_lib::group_to_multiset_ensures;

    let le = rank();
    lemma_rank_is_total_order();
    entries.lemma_sort_by_ensures(le);
    entries.push(e).lemma_sort_by_ensures(le);
    let ranked = entries.sort_by(le);
    let p = place(ranked, e);
    lemma_place(ranked, e);
    let with = ranked.insert(p, e);
    assert forall|i: int, j: int| 0 <= i < j < with.len() implies #[trigger] le(with[i], with[j]) by {
        if j == p {
            assert(ranks_first(ranked[i], e));
        } else if i == p {
            assert(le(ranked[p], e) || le(e, ranked[p]));
            assert(le(e, ranked[p]));
            if j - 1 > p {
                assert(le(ranked[p], ranked[j - 1]));
            }
        } else {
            let a = if i < p {
                i
            } else {
                i - 1
            };
            let b = if j < p {
                j
            } else {
                j - 1
            };
            assert(le(ranked[a], ranked[b]));
        }
    }
    assert(sorted_by(with, le));
    assert(with.to_multiset() == ranked.to_multiset().insert(e));
    assert(entries.push(e).to_multiset() == entries.to_multiset().insert(e));
    vstd::seq_lib::lemma_sorted_unique(with, entries.push(e).sort_by(le), le);
    assert(entries.to_multiset().len() == entries.len());
    assert(ranked.to_multiset().len() == ranked.len());
}

proof fn lemma_best_one_more(entries: Seq<EntryView>, e: EntryView, limit: nat, k: int)
    requires
        0 <= k <= best(entries, limit).len(),
        forall|i: int| 0 <= i < k ==> ranks_first(#[trigger] best(entries, limit)[i], e),
        k < best(entries, limit).len() ==> !ranks_first(best(entries, limit)[k], e),
    ensures
        best(entries, limit).len() <= limit,
        best(entries.push(e), limit) == if k < best(entries, limit).len() {
            let with = best(entries, limit).insert(k, e);
            if with.len() > limit {
                with.drop_last()
            } else {
                with
            }
        } else if best(entries, limit).len() < limit {
            best(entries, limit).push(e)
        } else {
            best(entries, limit)
        },
{
    let ranked = entries.sort_by(rank());
    let top = best(entries, limit);
    lemma_ranking_one_more(entries, e);
    assert forall|i: int| 0 <= i < k implies ranks_first(#[trigger] ranked[i], e) by {
        assert(top[i] == ranked[i]);
    }
    if k < top.len() {
        lemma_place_is(ranked, e, k);
        let with = top.insert(k, e);
        if with.len() > limit {
            assert(with.drop_last() == ranked.insert(k, e).take(limit as int));
        } else {
            assert(with == ranked.insert(k, e));
        }
    } else if top.len() < limit {
        lemma_place_is(ranked, e, k);
        assert(top.push(e) == ranked.insert(k, e));
    } else {
        lemma_place(ranked, e);
        let p = place(ranked, e);
        assert(p < limit ==> !ranks_first(ranked[p], e));
        assert(ranked.insert(p, e).take(limit as int) == top);
    }
}

proof fn lemma_prefix_not_after(prefix: Seq<char>, word: Seq<char>)
    requires
        prefix.is_prefix_of(word),
    ensures
        !text::lex_lt(word, prefix),
{
    let rest = word.skip(prefix.len() as int);
    let none = Seq::<char>::empty();
    assert(word == prefix + rest);
    assert(prefix == prefix + none);
    text::lemma_lex_common_prefix(prefix, rest, none);
}

proof fn lemma_beyond_prefix(prefix: Seq<char>, other: Seq<char>, word: Seq<char>)
    requires
        !text::lex_lt(other, prefix),
        !prefix.is_prefix_of(other),
        prefix.is_prefix_of(word),
    ensures
        text::lex_lt(word, other),
    decreases prefix.len(),
{
    if prefix.len() == 0 {
        assert(prefix == other.subrange(0, 0));
    } else {
        assert(other.len() > 0);
        assert(word[0] == word.subrange(0, prefix.len() as int)[0]);
        if other[0] == prefix[0] {
            let p = prefix.drop_first();
            let o = other.drop_first();
            let w = word.drop_first();
            assert(p == w.subrange(0, p.len() as int));
            if p.is_prefix_of(o) {
                assert forall|i: int| 0 <= i < prefix.len() implies prefix[i] == other[i] by {
                    if i > 0 {
                        assert(p[i - 1] == o.subrange(0, p.len() as int)[i - 1]);
                    }
                }
                assert(prefix == other.subrange(0, prefix.len() as int));
            }
            lemma_beyond_prefix(p, o, w);
        }
    }
}

proof fn lemma_filter_all(entries: Seq<EntryView>, keep: spec_fn(EntryView) -> bool)
    requires
        forall|i: int| 0 <= i < entries.len() ==> keep(#[trigger] entries[i]),
    ensures
        entries.filter(keep) == entries,
    decreases entries.len(),
{
    reveal(Seq::filter);
    if entries.len() > 0 {
        let rest = entries.drop_last();
        assert forall|i: int| 0 <= i < rest.len() implies keep(#[trigger] rest[i]) by {
            assert(rest[i] == entries[i]);
        }
        lemma_filter_all(rest, keep);
        assert(keep(entries[entries.len() - 1]));
        assert(rest.push(entries.last()) == entries);
    }
}

proof fn lemma_prefix_run(entries: Seq<EntryView>, prefix: Seq<char>)
    ensures
        prefix_run(entries, prefix) <= entries.len(),
        forall|i: int|
            0 <= i < prefix_run(entries, prefix) ==> prefix.is_prefix_of((#[trigger] entries[i]).word),
        prefix_run(entries, prefix) < entries.len() ==> !prefix.is_prefix_of(
            entries[prefix_run(entries, prefix) as int].word,
        ),
    decreases entries.len(),
{
    if entries.len() > 0 && prefix.is_prefix_of(entries[0].word) {
        let rest = entries.drop_first();
        lemma_prefix_run(rest, prefix);
        assert forall|i: int| 0 <= i < prefix_run(entries, prefix) implies prefix.is_prefix_of(
            (#[trigger] entries[i]).word,
        ) by {
            if i > 0 {
                assert(rest[i - 1] == entries[i]);
            }
        }
    }
}

proof fn lemma_three_parts(entries: Seq<EntryView>, from: int, to: int)
    requires
        0 <= from <= to <= entries.len(),
    ensures
        entries == entries.take(from) + entries.subrange(from, to) + entries.skip(to),
{
}

/// In sorted entries the completions of a prefix stand side by side, from the first word on that
/// does not come before the prefix.
pub proof fn lemma_completions_are_a_run(entries: Seq<EntryView>, prefix: Seq<char>, start: int)
    requires
        sorted(entries),
        0 <= start <= entries.len(),
        forall|i: int| 0 <= i < start ==> text::lex_lt((#[trigger] entries[i]).word, prefix),
        forall|i: int|
            start <= i < entries.len() ==> !text::lex_lt((#[trigger] entries[i]).word, prefix),
    ensures
        run_at(entries, start, prefix) == completions(entries, prefix),
{
    let keep = |e: EntryView| prefix.is_prefix_of(e.word);
    let tail = entries.skip(start);
    lemma_prefix_run(tail, prefix);
    let end = start + prefix_run(tail, prefix);
    let before = entries.take(start);
    let run = run_at(entries, start, prefix);
    let after = entries.skip(end);
    assert forall|i: int| 0 <= i < before.len() implies !keep(#[trigger] before[i]) by {
        assert(before[i] == entries[i]);
        if keep(before[i]) {
            lemma_prefix_not_after(prefix, before[i].word);
        }
    }
    assert forall|i: int| 0 <= i < run.len() implies keep(#[trigger] run[i]) by {
        assert(run[i] == tail[i]);
    }
    assert forall|i: int| 0 <= i < after.len() implies !keep(#[trigger] after[i]) by {
        assert(after[i] == entries[end + i]);
        assert(tail[end - start] == entries[end]);
        if keep(after[i]) {
            lemma_beyond_prefix(prefix, entries[end].word, after[i].word);
            text::lemma_lex_irreflexive(after[i].word);
            assert(i > 0);
            assert(text::lex_le(entries[end].word, entries[end + i].word));
        }
    }
    before.lemma_all_neg_filter_empty(keep);
    after.lemma_all_neg_filter_empty(keep);
    lemma_filter_all(run, keep);
    Seq::filter_distributes_over_add(before, run, keep);
    Seq::filter_distributes_over_add(before + run, after, keep);
    lemma_three_parts(entries, start, end);
    assert(Seq::<EntryView>::empty() + run + Seq::<EntryView>::empty() == run);
}

/// The suggestions that are served.
pub struct SuggestionIndex {
    /// Sorted by word, so that the completions of a prefix are found by halving.
    pub entries: Vec<SuggestionEntry>,
}

impl View for SuggestionIndex {
    type V = Seq<EntryView>;

    open spec fn view(&self) -> Seq<EntryView> {
        entry_views(self.entries@)
    }
}

/// The entries at the places `order`.
spec fn entries_at(entries: Seq<EntryView>, order: Seq<usize>) -> Seq<EntryView> {
    Seq::new(order.len(), |k: int| entries[order[k] as int])
}

impl SuggestionIndex {
    /// The place of the first word that does not come before `prefix`.
    fn first_not_before(&self, prefix: &str) -> (r: usize)
        ensures
            r <= self.entries.len(),
            sorted(self@) ==> forall|i: int|
                0 <= i < r ==> text::lex_lt((#[trigger] self@[i]).word, prefix@),
            sorted(self@) ==> forall|i: int|
                r <= i < self@.len() ==> !text::lex_lt((#[trigger] self@[i]).word, prefix@),
    {
        let ghost es = self@;
        let mut from: usize = 0;
        let mut to: usize = self.entries.len();
        while from < to
            invariant
                es == self@,
                from <= to <= self.entries.len(),
                sorted(es) ==> forall|i: int|
                    0 <= i < from ==> text::lex_lt((#[trigger] es[i]).word, prefix@),
                sorted(es) ==> forall|i: int|
                    to <= i < es.len() ==> !text::lex_lt((#[trigger] es[i]).word, prefix@),
            decreases to - from,
        {
            let middle: usize = from + (to - from) / 2;
            assert(es[middle as int] == self.entries@[middle as int]@);
            let ghost word = es[middle as int].word;
            if text::text_lt(self.entries[middle].word.as_str(), prefix) {
                assert forall|i: int| sorted(es) && 0 <= i < middle + 1 implies text::lex_lt(
                    (#[trigger] es[i]).word,
                    prefix@,
                ) by {
                    if i < middle {
                        text::lemma_lex_total(es[i].word, word);
                        if text::lex_lt(es[i].word, word) {
                            text::lemma_lex_transitive(es[i].word, word, prefix@);
                        }
                    }
                }
                from = middle + 1;
            } else {
                assert forall|i: int| sorted(es) && middle <= i < es.len() implies !text::lex_lt(
                    (#[trigger] es[i]).word,
                    prefix@,
                ) by {
                    if i > middle && text::lex_lt(es[i].word, prefix@) {
                        text::lemma_lex_total(es[i].word, word);
                        if text::lex_lt(word, es[i].word) {
                            text::lemma_lex_transitive(word, es[i].word, prefix@);
                        }
                    }
                }
                to = middle;
            }
        }
        from
    }

    /// The words that complete `prefix`, in whatever case it is written: those of most titles
    /// first, and no more than `limit`. Where the entries are not sorted, completions that stand
    /// apart from the others may be missed.
    pub fn suggest(&self, prefix: &str, limit: usize) -> (r: Vec<String>)
        ensures
            sorted(self@) ==> r.deep_view() == words_in(
                best(completions(self@, text::lowercase(prefix@)), limit as nat),
            ),
            exists|start: int|
                0 <= start <= self@.len() && r.deep_view() == words_in(
                    best(#[trigger] run_at(self@, start, text::lowercase(prefix@)), limit as nat),
                ),
    {
        let lower = prefix.to_lowercase();
        self.suggest_lowered(lower.as_str(), limit)
    }

    /// The words that complete `lower`, which is in lower case: those of most titles first, and no
    /// more than `limit`.
    pub fn suggest_lowered(&self, lower: &str, limit: usize) -> (r: Vec<String>)
        ensures
            sorted(self@) ==> r.deep_view() == words_in(
                best(completions(self@, lower@), limit as nat),
            ),
            exists|start: int|
                0 <= start <= self@.len() && r.deep_view() == words_in(
                    best(#[trigger] run_at(self@, start, lower@), limit as nat),
                ),
    {
        let ghost p = lower@;
        let ghost es = self@;
        let start = self.first_not_before(lower);
        let mut top: Vec<usize> = Vec::new();
        let mut i: usize = start;
        assert(es.subrange(start as int, start as int) == Seq::<EntryView>::empty());
        assert(best(Seq::<EntryView>::empty(), limit as nat) == Seq::<EntryView>::empty()) by {
            lemma_ranking_one_more(Seq::<EntryView>::empty(), EntryView { word: p, count: 0 });
        }
        assert(entries_at(es, top@) == Seq::<EntryView>::empty());
        while i < self.entries.len() && text::starts_with(
            self.entries[i].word.as_str(),
            lower,
        )
            invariant
                es == self@,
                p == lower@,
                start <= i <= self.entries.len(),
                forall|k: int| 0 <= k < top.len() ==> (#[trigger] top@[k]) < self.entries.len(),
                entries_at(es, top@) == best(es.subrange(start as int, i as int), limit as nat),
                prefix_run(es.skip(start as int), p) == i - start + prefix_run(es.skip(i as int), p),
            decreases self.entries.len() - i,
        {
            let entry = &self.entries[i];
            let ghost e = es[i as int];
            let ghost so_far = es.subrange(start as int, i as int);
            let ghost tops = entries_at(es, top@);
            assert(e == entry@);
            assert(es.skip(i as int).drop_first() == es.skip(i + 1));
            assert(es.skip(i as int)[0] == e);
            let mut k: usize = 0;
            while k < top.len() && self.shown_first(top[k], i)
                invariant
                    es == self@,
                    i < self.entries.len(),
                    e == es[i as int],
                    k <= top.len(),
                    forall|m: int| 0 <= m < top.len() ==> (#[trigger] top@[m]) < self.entries.len(),
                    tops == entries_at(es, top@),
                    forall|m: int| 0 <= m < k ==> ranks_first(#[trigger] tops[m], e),
                decreases top.len() - k,
            {
                assert(tops[k as int] == es[top@[k as int] as int]);
                k = k + 1;
            }
            proof {
                lemma_best_one_more(so_far, e, limit as nat, k as int);
                assert(es.subrange(start as int, i + 1) == so_far.push(e));
            }
            if k < top.len() {
                top.insert(k, i);
                assert(entries_at(es, top@) == tops.insert(k as int, e));
                if top.len() > limit {
                    let ghost longer = top@;
                    top.pop();
                    assert(entries_at(es, top@) == entries_at(es, longer).drop_last());
                }
            } else if top.len() < limit {
                top.push(i);
                assert(entries_at(es, top@) == tops.push(e));
            }
            i = i + 1;
        }
        assert(es.subrange(start as int, i as int) == run_at(es, start as int, p));
        proof {
            if sorted(es) {
                lemma_completions_are_a_run(es, p, start as int);
            }
        }
        let mut r: Vec<String> = Vec::new();
        let mut k: usize = 0;
        while k < top.len()
            invariant
                es == self@,
                k <= top.len(),
                forall|m: int| 0 <= m < top.len() ==> (#[trigger] top@[m]) < self.entries.len(),
                r.deep_view() == words_in(entries_at(es, top@)).take(k as int),
            decreases top.len() - k,
        {
            let ghost before = r.deep_view();
            r.push(self.entries[top[k]].word.clone());
            assert(r.deep_view() == before.push(es[top@[k as int] as int].word));
            assert(words_in(entries_at(es, top@)).take(k + 1) == before.push(
                es[top@[k as int] as int].word,
            ));
            k = k + 1;
        }
        assert(words_in(entries_at(es, top@)).take(k as int) == words_in(entries_at(es, top@)));
        r
    }

    /// Whether the entry `a` is shown before the entry `b` or in its place.
    fn shown_first(&self, a: usize, b: usize) -> (r: bool)
        requires
            a < self.entries.len(),
            b < self.entries.len(),
        ensures
            r == ranks_first(self@[a as int], self@[b as int]),
    {
        let x = &self.entries[a];
        let y = &self.entries[b];
        x.count > y.count || (x.count == y.count && !text::text_lt(y.word.as_str(), x.word.as_str()))
    }
}

/// The number of suggestions that are given where a request asks for no number.
pub const DEFAULT_LIMIT: usize = 10;

/// The largest number of suggestions that are given.
pub const MAX_LIMIT: usize = 20;

/// The number of suggestions that are given where a request asks for no number.
pub fn default_suggest_limit() -> (r: usize)
    ensures
        r == DEFAULT_LIMIT == 10,
{
    DEFAULT_LIMIT
}

/// The number of suggestions that are given where a request asks for `asked`.
pub open spec fn suggestion_limit(asked: nat) -> nat {
    if asked < 1 {
        1
    } else if asked > MAX_LIMIT {
        MAX_LIMIT as nat
    } else {
        asked
    }
}

/// The suggestions for what was typed, from the entries that complete it.
pub open spec fn shown_words(typed: Seq<char>, found: Seq<EntryView>, asked: nat) -> Seq<Seq<char>> {
    if text::trimmed(typed).len() == 0 {
        seq![]
    } else {
        words_in(best(found, suggestion_limit(asked)))
    }
}

/// What is completed where `typed` was typed.
pub open spec fn typed_prefix(typed: Seq<char>) -> Seq<char> {
    text::lowercase(text::trimmed(typed))
}

impl SuggestionIndex {
    /// The suggestions for what was typed. White space around it does not count, and nothing is
    /// suggested where there is nothing else.
    pub fn complete(&self, typed: &str, asked: usize) -> (r: Vec<String>)
        ensures
            sorted(self@) ==> r.deep_view() == shown_words(
                typed@,
                completions(self@, typed_prefix(typed@)),
                asked as nat,
            ),
            exists|start: int|
                0 <= start <= self@.len() && r.deep_view() == shown_words(
                    typed@,
                    #[trigger] run_at(self@, start, typed_prefix(typed@)),
                    asked as nat,
                ),
    {
        let prefix = text::trim(typed);
        if prefix.is_empty() {
            let none: Vec<String> = Vec::new();
            assert(none.deep_view() == Seq::<Seq<char>>::empty());
            assert(none.deep_view() == shown_words(
                typed@,
                run_at(self@, 0, typed_prefix(typed@)),
                asked as nat,
            ));
            return none;
        }
        let limit: usize = if asked < 1 {
            1
        } else if asked > MAX_LIMIT {
            MAX_LIMIT
        } else {
            asked
        };
        let r = self.suggest(prefix, limit);
        proof {
            let start = choose|start: int|
                0 <= start <= self@.len() && r.deep_view() == words_in(
                    best(#[trigger] run_at(self@, start, text::lowercase(prefix@)), limit as nat),
                );
            assert(r.deep_view() == shown_words(
                typed@,
                run_at(self@, start, typed_prefix(typed@)),
                asked as nat,
            ));
        }
        r
    }
}

/// What is suggested for a prefix are words that begin with it, the word of most titles first; as
/// many as there are, up to the limit; and no word is left out for one that would be shown after it.
pub proof fn lemma_best_completions(entries: Seq<EntryView>, prefix: Seq<char>, limit: nat)
    ensures
        best(completions(entries, prefix), limit).len() == if completions(entries, prefix).len()
            <= limit {
            completions(entries, prefix).len()
        } else {
            limit
        },
        forall|i: int|
            0 <= i < best(completions(entries, prefix), limit).len() ==> {
                let e = #[trigger] best(completions(entries, prefix), limit)[i];
                prefix.is_prefix_of(e.word) && entries.contains(e)
            },
        forall|i: int, j: int|
            0 <= i < j < best(completions(entries, prefix), limit).len() ==> ranks_first(
                #[trigger] best(completions(entries, prefix), limit)[i],
                #[trigger] best(completions(entries, prefix), limit)[j],
            ),
        forall|e: EntryView|
            entries.contains(e) && prefix.is_prefix_of(e.word) && !(#[trigger] best(
                completions(entries, prefix),
                limit,
            ).contains(e)) ==> forall|i: int|
                0 <= i < best(completions(entries, prefix), limit).len() ==> ranks_first(
                    #[trigger] best(completions(entries, prefix), limit)[i],
                    e,
                ),
{
    broadcast use vstd::seq_lib::group_to_multiset_ensures;

    let le = rank();
    let keep = |e: EntryView| prefix.is_prefix_of(e.word);
    let found = completions(entries, prefix);
    let ranked = found.sort_by(le);
    let top = best(found, limit);
    lemma_rank_is_total_order();
    found.lemma_sort_by_ensures(le);
    assert(found.to_multiset().len() == found.len());
    assert(ranked.to_multiset().len() == ranked.len());
    assert forall|i: int| 0 <= i < top.len() implies prefix.is_prefix_of((#[trigger] top[i]).word)
        && entries.contains(top[i]) by {
        assert(ranked.contains(ranked[i]));
        assert(found.contains(top[i]));
        let k = choose|k: int| 0 <= k < found.len() && found[k] == top[i];
        entries.lemma_filter_pred(keep, k);
        entries.lemma_filter_contains_rev(keep, top[i]);
    }
    assert forall|i: int, j: int| 0 <= i < j < top.len() implies ranks_first(
        #[trigger] top[i],
        #[trigger] top[j],
    ) by {
        assert(le(ranked[i], ranked[j]));
    }
    assert forall|e: EntryView|
        entries.contains(e) && prefix.is_prefix_of(e.word) && !(#[trigger] top.contains(
            e,
        )) implies forall|i: int| 0 <= i < top.len() ==> ranks_first(#[trigger] top[i], e) by {
        let k = choose|k: int| 0 <= k < entries.len() && entries[k] == e;
        assert(keep(entries[k]));
        entries.lemma_filter_contains(keep, k);
        assert(found.contains(e));
        assert(found.to_multiset().contains(e));
        assert(ranked.contains(e));
        let m = choose|m: int| 0 <= m < ranked.len() && ranked[m] == e;
        assert(m >= top.len()) by {
            if m < top.len() {
                assert(top[m] == e);
            }
        }
        assert forall|i: int| 0 <= i < top.len() implies ranks_first(#[trigger] top[i], e) by {
            assert(le(ranked[i], ranked[m]));
        }
    }
}

/// Entries that are built are sorted as serving them needs it.
pub proof fn lemma_built_entries_are_sorted(entries: Seq<EntryView>)
    requires
        strictly_sorted(entries),
    ensures
        sorted(entries),
{
    assert forall|i: int, j: int| 0 <= i < j < entries.len() implies text::lex_le(
        (#[trigger] entries[i]).word,
        (#[trigger] entries[j]).word,
    ) by {
        text::lemma_lex_asymmetric(entries[i].word, entries[j].word);
    }
}

/// The titles alone say which entries are built.
pub proof fn lemma_entries_are_determined(
    a: Seq<EntryView>,
    b: Seq<EntryView>,
    titles: Seq<Seq<char>>,
)
    requires
        strictly_sorted(a),
        strictly_sorted(b),
        counts_titles(a, titles),
        counts_titles(b, titles),
    ensures
        a == b,
{
    lemma_same_beginning(a, b, titles, a.len() as int);
    lemma_same_beginning(b, a, titles, b.len() as int);
}

proof fn lemma_same_beginning(a: Seq<EntryView>, b: Seq<EntryView>, titles: Seq<Seq<char>>, n: int)
    requires
        strictly_sorted(a),
        strictly_sorted(b),
        counts_titles(a, titles),
        counts_titles(b, titles),
        0 <= n <= a.len(),
    ensures
        n <= b.len(),
        forall|i: int| 0 <= i < n ==> #[trigger] a[i] == b[i],
    decreases n,
{
    if n > 0 {
        lemma_same_beginning(a, b, titles, n - 1);
        let last = n - 1;
        let word = a[last].word;
        assert(title_count(titles, word) > 0);
        let k = choose|k: int| 0 <= k < b.len() && (#[trigger] b[k]).word == word;
        text::lemma_lex_irreflexive(word);
        if k < last {
            assert(a[k] == b[k]);
            assert(text::lex_lt(a[k].word, a[last].word));
        }
        if k > last {
            let other = b[last].word;
            assert(title_count(titles, other) > 0);
            let m = choose|m: int| 0 <= m < a.len() && (#[trigger] a[m]).word == other;
            text::lemma_lex_irreflexive(other);
            assert(text::lex_lt(b[last].word, b[k].word));
            if m < last {
                assert(a[m] == b[m]);
                assert(text::lex_lt(b[m].word, b[last].word));
            }
            if m > last {
                assert(text::lex_lt(a[last].word, a[m].word));
                text::lemma_lex_asymmetric(word, other);
            }
        }
        assert(a[last] == b[last]);
    }
}

/// Postcard's error.
#[verifier::external_type_specification]
#[verifier::external_body]
pub struct ExPostcardError(postcard::Error);

/// The bytes that postcard writes for a sequence of words and counts.
pub uninterp spec fn encoded_pairs(pairs: Seq<(Seq<char>, u32)>) -> Seq<u8>;

/// The words and counts that postcard reads from `bytes` on a machine with words of `word_bits` bits;
/// `None` where it refuses them. The width says how many bytes a length may take.
pub uninterp spec fn decoded_pairs(bytes: Seq<u8>, word_bits: int) -> Option<Seq<(Seq<char>, u32)>>;

/// `postcard::to_allocvec` writes words and counts into a growing buffer, which takes everything.
/// The contract names what is written, a function of the words and counts, and says that
/// `postcard::from_bytes` reads it back.
#[verifier::external_body]
fn encode_pairs(pairs: &Vec<(String, u32)>) -> (r: Result<Vec<u8>, postcard::Error>)
    ensures
        r is Ok,
        r matches Ok(bytes) ==> bytes@ == encoded_pairs(pairs.deep_view()) && decoded_pairs(bytes@, usize::BITS as int)
            == Some(pairs.deep_view()),
{
    postcard::to_allocvec(pairs)
}

/// `postcard::from_bytes` reads words and counts. The contract names the outcome, a function of the
/// bytes and of the width of the machine's words.
#[verifier::external_body]
fn decode_pairs(bytes: &Vec<u8>) -> (r: Result<Vec<(String, u32)>, postcard::Error>)
    ensures
        r matches Ok(pairs) ==> decoded_pairs(bytes@, usize::BITS as int) == Some(pairs.deep_view()),
        r is Err ==> decoded_pairs(bytes@, usize::BITS as int) is None,
{
    postcard::from_bytes(bytes)
}

/// Why suggestions cannot be stored or read.
#[derive(Clone, Copy, Debug, PartialEq, Eq, Structural)]
pub enum SuggestionError {
    /// They could not be written.
    Unwritable,
    /// What was read are no suggestions.
    Malformed,
}

/// Words and counts of `entries`.
pub open spec fn pairs_of(entries: Seq<EntryView>) -> Seq<(Seq<char>, u32)> {
    entries.map_values(|e: EntryView| (e.word, e.count))
}

/// The entries of `pairs`.
pub open spec fn entries_from(pairs: Seq<(Seq<char>, u32)>) -> Seq<EntryView> {
    pairs.map_values(|p: (Seq<char>, u32)| EntryView { word: p.0, count: p.1 })
}

/// The entries that `bytes` hold for this machine.
pub open spec fn stored_entries(bytes: Seq<u8>) -> Option<Seq<EntryView>> {
    match decoded_pairs(bytes, usize::BITS as int) {
        Some(pairs) => Some(entries_from(pairs)),
        None => None,
    }
}

/// The bytes in which `entries` are stored. They hold these entries and no others.
pub fn store_entries(entries: &Vec<SuggestionEntry>) -> (r: Result<Vec<u8>, SuggestionError>)
    ensures
        r matches Ok(bytes) && bytes@ == encoded_pairs(pairs_of(entry_views(entries@)))
            && stored_entries(bytes@) == Some(entry_views(entries@)),
{
    let ghost views = entry_views(entries@);
    let mut pairs: Vec<(String, u32)> = Vec::new();
    let mut i: usize = 0;
    while i < entries.len()
        invariant
            i <= entries.len(),
            views == entry_views(entries@),
            pairs.deep_view() == pairs_of(views.take(i as int)),
        decreases entries.len() - i,
    {
        let ghost before = pairs.deep_view();
        let ghost e = views[i as int];
        pairs.push((entries[i].word.clone(), entries[i].count));
        assert(pairs.deep_view() == before.push((e.word, e.count)));
        assert(pairs_of(views.take(i + 1)) == before.push((e.word, e.count)));
        i = i + 1;
    }
    assert(views.take(entries.len() as int) == views);
    assert(entries_from(pairs_of(views)) == views);
    match encode_pairs(&pairs) {
        Ok(bytes) => Ok(bytes),
        Err(_) => Err(SuggestionError::Unwritable),
    }
}

impl SuggestionIndex {
    /// The suggestions that `bytes` hold.
    pub fn load(bytes: &Vec<u8>) -> (r: Result<SuggestionIndex, SuggestionError>)
        ensures
            r matches Ok(index) ==> stored_entries(bytes@) == Some(index@),
            r matches Err(e) ==> e == SuggestionError::Malformed && stored_entries(bytes@) is None,
    {
        let pairs = match decode_pairs(bytes) {
            Ok(pairs) => pairs,
            Err(_) => {
                return Err(SuggestionError::Malformed);
            },
        };
        let ghost views = pairs.deep_view();
        let ghost all = pairs@;
        let mut entries: Vec<SuggestionEntry> = Vec::new();
        for pair in it: pairs
            invariant
                it.seq() == all,
                views == all.map_values(|p: (String, u32)| (p.0@, p.1)),
                entry_views(entries@) == entries_from(views.take(it.index() as int)),
        {
            let ghost n = it.index() as int;
            let ghost before = entry_views(entries@);
            let (word, count) = pair;
            let entry = SuggestionEntry { word, count };
            entries.push(entry);
            assert(entry_views(entries@) == before.push(entry@));
            assert(entries_from(views.take(n + 1)) == before.push(entry@));
        }
        assert(views.take(all.len() as int) == views);
        Ok(SuggestionIndex { entries })
    }
}

/// The count of a word is the number of titles that hold it. One more title raises it by one where
/// that title holds the word, whatever the count was, and leaves it alone where it does not.
pub proof fn lemma_title_count(titles: Seq<Seq<char>>, title: Seq<char>, word: Seq<char>)
    ensures
        title_count(titles, word) == titles.filter(|t: Seq<char>| word_of_title(t, word)).len(),
        word_of_title(title, word) ==> title_count(titles.push(title), word) == title_count(
            titles,
            word,
        ) + 1,
        !word_of_title(title, word) ==> title_count(titles.push(title), word) == title_count(
            titles,
            word,
        ),
    decreases titles.len(),
{
    reveal(Seq::filter);
    assert(titles.push(title).drop_last() == titles);
    if titles.len() > 0 {
        lemma_title_count(titles.drop_last(), title, word);
    }
}

/// A word has an entry where some title holds it, one entry only, and its count is the number of
/// titles that hold it.
pub proof fn lemma_entries_count_titles(
    entries: Seq<EntryView>,
    titles: Seq<Seq<char>>,
    word: Seq<char>,
)
    requires
        strictly_sorted(entries),
        counts_titles(entries, titles),
    ensures
        (exists|i: int| 0 <= i < entries.len() && (#[trigger] entries[i]).word == word) <==> (
        exists|k: int| 0 <= k < titles.len() && word_of_title(#[trigger] titles[k], word)),
        forall|i: int|
            0 <= i < entries.len() && (#[trigger] entries[i]).word == word ==> entries[i].count
                == titles.filter(|t: Seq<char>| word_of_title(t, word)).len(),
        forall|i: int, j: int|
            0 <= i < entries.len() && 0 <= j < entries.len() && (#[trigger] entries[i]).word == (
            #[trigger] entries[j]).word ==> i == j,
{
    let holds = |t: Seq<char>| word_of_title(t, word);
    lemma_title_count(titles, word, word);
    if exists|i: int| 0 <= i < entries.len() && (#[trigger] entries[i]).word == word {
        let found = titles.filter(holds);
        assert(found.len() > 0);
        titles.lemma_filter_pred(holds, 0);
        assert(found.contains(found[0]));
        titles.lemma_filter_contains_rev(holds, found[0]);
        let k = choose|k: int| 0 <= k < titles.len() && titles[k] == found[0];
        assert(word_of_title(titles[k], word));
    }
    if exists|k: int| 0 <= k < titles.len() && word_of_title(#[trigger] titles[k], word) {
        let k = choose|k: int| 0 <= k < titles.len() && word_of_title(#[trigger] titles[k], word);
        titles.lemma_filter_contains(holds, k);
        assert(title_count(titles, word) > 0);
    }
    text::lemma_lex_irreflexive(word);
    assert forall|i: int, j: int|
        0 <= i < entries.len() && 0 <= j < entries.len() && (#[trigger] entries[i]).word == (
        #[trigger] entries[j]).word implies i == j by {
        text::lemma_lex_irreflexive(entries[i].word);
        if i < j {
            assert(text::lex_lt(entries[i].word, entries[j].word));
        }
        if j < i {
            assert(text::lex_lt(entries[j].word, entries[i].word));
        }
    }
}

proof fn lemma_separator_first(s: Seq<char>)
    ensures
        separator_first(s) <==> (" | "@.is_prefix_of(s) || " – "@.is_prefix_of(s)
            || " — "@.is_prefix_of(s) || " :: "@.is_prefix_of(s) || " » "@.is_prefix_of(s)
            || " - "@.is_prefix_of(s)),
{
    let marks = separators();
    assert forall|k: int| 0 <= k < marks.len() implies #[trigger] text::occurs_at(s, marks[k], 0)
        == marks[k].is_prefix_of(s) by {}
    if separator_first(s) {
        let k = choose|k: int| 0 <= k < marks.len() && text::occurs_at(s, #[trigger] marks[k], 0);
        assert(marks[k].is_prefix_of(s));
    }
    if " | "@.is_prefix_of(s) {
        assert(text::occurs_at(s, marks[0], 0));
    }
    if " – "@.is_prefix_of(s) {
        assert(text::occurs_at(s, marks[1], 0));
    }
    if " — "@.is_prefix_of(s) {
        assert(text::occurs_at(s, marks[2], 0));
    }
    if " :: "@.is_prefix_of(s) {
        assert(text::occurs_at(s, marks[3], 0));
    }
    if " » "@.is_prefix_of(s) {
        assert(text::occurs_at(s, marks[4], 0));
    }
    if " - "@.is_prefix_of(s) {
        assert(text::occurs_at(s, marks[5], 0));
    }
}

/// `mark` separates the title of a page from the name of its site.
pub open spec fn separates(mark: Seq<char>) -> bool {
    mark == " | "@ || mark == " – "@ || mark == " — "@ || mark == " :: "@ || mark == " » "@ || mark
        == " - "@
}

proof fn lemma_before_separator(s: Seq<char>, n: int)
    requires
        0 <= n <= s.len(),
        n < s.len() ==> separator_first(s.skip(n)),
        forall|j: int| 0 <= j < n ==> !separator_first(#[trigger] s.skip(j)),
    ensures
        before_separator(s) == n,
    decreases n,
{
    if n == 0 {
        assert(s.skip(0) == s);
    } else {
        let rest = s.drop_first();
        assert(s.skip(0) == s);
        assert(!separator_first(s.skip(0)));
        assert(rest.skip(n - 1) == s.skip(n));
        assert forall|j: int| 0 <= j < n - 1 implies !separator_first(#[trigger] rest.skip(j)) by {
            assert(rest.skip(j) == s.skip(j + 1));
        }
        lemma_before_separator(rest, n - 1);
    }
}

proof fn lemma_separator_at(s: Seq<char>, j: int) -> (mark: Seq<char>)
    requires
        0 <= j <= s.len(),
        separator_first(s.skip(j)),
    ensures
        separates(mark),
        s == s.take(j) + mark + s.skip(j).skip(mark.len() as int),
{
    let rest = s.skip(j);
    lemma_separator_first(rest);
    let mark = if " | "@.is_prefix_of(rest) {
        " | "@
    } else if " – "@.is_prefix_of(rest) {
        " – "@
    } else if " — "@.is_prefix_of(rest) {
        " — "@
    } else if " :: "@.is_prefix_of(rest) {
        " :: "@
    } else if " » "@.is_prefix_of(rest) {
        " » "@
    } else {
        " - "@
    };
    assert(mark.is_prefix_of(rest));
    assert(rest.subrange(0, mark.len() as int) == mark);
    assert(rest == mark + rest.skip(mark.len() as int));
    assert(s == s.take(j) + rest);
    mark
}

proof fn lemma_mark_comes_first(mark: Seq<char>, site: Seq<char>)
    requires
        separates(mark),
    ensures
        separator_first(mark + site),
{
    lemma_separator_first(mark + site);
    assert((mark + site).subrange(0, mark.len() as int) == mark);
}

/// A page is named by what stands in its title before the first separator, whichever separator that
/// is; white space around it does not count.
pub proof fn lemma_title_segment(name: Seq<char>, mark: Seq<char>, site: Seq<char>)
    requires
        separates(mark),
        forall|x: Seq<char>, other: Seq<char>, y: Seq<char>|
            separates(other) && name + mark + site == #[trigger] (x + other + y) ==> name.len()
                <= x.len(),
    ensures
        title_segment(name + mark + site) == text::trimmed(name),
{
    let whole = name + mark + site;
    let n = name.len() as int;
    assert(whole.skip(n) == mark + site);
    lemma_mark_comes_first(mark, site);
    assert forall|j: int| 0 <= j < n implies !separator_first(#[trigger] whole.skip(j)) by {
        if separator_first(whole.skip(j)) {
            let other = lemma_separator_at(whole, j);
            assert(whole.take(j).len() == j);
        }
    }
    lemma_before_separator(whole, n);
    assert(whole.take(n) == name);
}

/// A title without a separator names the page as a whole.
pub proof fn lemma_whole_title(title: Seq<char>)
    requires
        forall|x: Seq<char>, mark: Seq<char>, y: Seq<char>|
            separates(mark) ==> title != #[trigger] (x + mark + y),
    ensures
        title_segment(title) == text::trimmed(title),
{
    let n = title.len() as int;
    assert forall|j: int| 0 <= j < n implies !separator_first(#[trigger] title.skip(j)) by {
        if separator_first(title.skip(j)) {
            let mark = lemma_separator_at(title, j);
        }
    }
    lemma_before_separator(title, n);
    assert(title.take(n) == title);
}

/// The words of a title are the runs of letters and digits in the part that names the page, in lower
/// case; those of a single byte are not worth suggesting.
pub proof fn lemma_word_of_title(title: Seq<char>, word: Seq<char>)
    ensures
        word_of_title(title, word) <==> encode_utf8(word).len() >= 2 && text::runs_of(
            title_segment(title),
            |c: char| alphanumeric(c),
        ).map_values(|run: Seq<char>| text::lowercase(run)).contains(word),
{
    let runs = text::runs_of(title_segment(title), letters());
    let lowered = runs.map_values(|run: Seq<char>| text::lowercase(run));
    assert(letters() =~= |c: char| alphanumeric(c));
    if lowered.contains(word) {
        let i = choose|i: int| 0 <= i < lowered.len() && lowered[i] == word;
        assert(text::lowercase(runs[i]) == word);
    }
    if word_of_title(title, word) {
        let i = choose|i: int| 0 <= i < runs.len() && text::lowercase(#[trigger] runs[i]) == word;
        assert(lowered[i] == word);
    }
}

/// The word of more titles is shown first; of two words of equally many titles the one that comes
/// first in the order of texts.
pub proof fn lemma_ranks_first(a: EntryView, b: EntryView)
    ensures
        a.count > b.count ==> ranks_first(a, b) && !ranks_first(b, a),
        a.count == b.count && text::lex_lt(a.word, b.word) ==> ranks_first(a, b) && !ranks_first(
            b,
            a,
        ),
        a == b ==> ranks_first(a, b),
{
    text::lemma_lex_asymmetric(a.word, b.word);
    text::lemma_lex_irreflexive(a.word);
}

/// The completions of a prefix are all entries whose words are the prefix and something behind it.
pub proof fn lemma_completions(entries: Seq<EntryView>, prefix: Seq<char>, e: EntryView)
    ensures
        completions(entries, prefix).contains(e) <==> entries.contains(e) && exists|rest: Seq<char>|
            e.word == #[trigger] (prefix + rest),
        completions(entries, prefix) == entries.filter(
            |x: EntryView| exists|rest: Seq<char>| x.word == #[trigger] (prefix + rest),
        ),
{
    let keep = |x: EntryView| prefix.is_prefix_of(x.word);
    let begins = |x: EntryView| exists|rest: Seq<char>| x.word == #[trigger] (prefix + rest);
    assert forall|x: EntryView| #[trigger] keep(x) == begins(x) by {
        if keep(x) {
            assert(x.word == prefix + x.word.skip(prefix.len() as int));
        }
        if begins(x) {
            let rest = choose|rest: Seq<char>| x.word == #[trigger] (prefix + rest);
            assert(x.word.subrange(0, prefix.len() as int) == prefix);
        }
    }
    assert(keep =~= begins);
    assert(keep(e) == begins(e));
    let found = completions(entries, prefix);
    if found.contains(e) {
        let k = choose|k: int| 0 <= k < found.len() && found[k] == e;
        entries.lemma_filter_pred(keep, k);
        entries.lemma_filter_contains_rev(keep, e);
    }
    if entries.contains(e) && begins(e) {
        let k = choose|k: int| 0 <= k < entries.len() && entries[k] == e;
        entries.lemma_filter_contains(keep, k);
    }
}

/// Among one and twenty suggestions a request gets as many as it asks for, and else the nearest of
/// these numbers.
pub proof fn lemma_suggestion_limit(asked: nat)
    ensures
        1 <= asked <= 20 ==> suggestion_limit(asked) == asked,
        asked == 0 ==> suggestion_limit(asked) == 1,
        asked > 20 ==> suggestion_limit(asked) == 20,
{
}

/// What is shown for what was typed are the words of the best entries, in their order. For white
/// space nothing is shown, and white space around what was typed plays no part in what is completed.
pub proof fn lemma_shown_words(
    before: Seq<char>,
    typed: Seq<char>,
    after: Seq<char>,
    found: Seq<EntryView>,
    asked: nat,
)
    requires
        forall|i: int| 0 <= i < before.len() ==> text::white_space(#[trigger] before[i]),
        forall|i: int| 0 <= i < after.len() ==> text::white_space(#[trigger] after[i]),
        typed.len() > 0 ==> !text::white_space(typed[0]) && !text::white_space(typed.last()),
    ensures
        typed.len() == 0 ==> shown_words(before + typed + after, found, asked).len() == 0,
        typed.len() > 0 ==> shown_words(before + typed + after, found, asked) == best(
            found,
            suggestion_limit(asked),
        ).map_values(|e: EntryView| e.word),
        typed_prefix(before + typed + after) == text::lowercase(typed),
{
    text::lemma_trimmed_is(before, typed, after);
}

/// The entries that stand together from a place on and begin with a prefix: each of them does, and
/// the one behind the last of them does not.
pub proof fn lemma_run_at(entries: Seq<EntryView>, start: int, prefix: Seq<char>)
    requires
        0 <= start <= entries.len(),
    ensures
        ({
            let n = run_at(entries, start, prefix).len() as int;
            &&& start + n <= entries.len()
            &&& run_at(entries, start, prefix) == entries.subrange(start, start + n)
            &&& forall|i: int|
                0 <= i < n ==> prefix.is_prefix_of(
                    (#[trigger] run_at(entries, start, prefix)[i]).word,
                )
            &&& start + n < entries.len() ==> !prefix.is_prefix_of(entries[start + n].word)
        }),
{
    let tail = entries.skip(start);
    lemma_prefix_run(tail, prefix);
    let n = prefix_run(tail, prefix) as int;
    assert(run_at(entries, start, prefix).len() == n);
    assert forall|i: int| 0 <= i < n implies prefix.is_prefix_of(
        (#[trigger] run_at(entries, start, prefix)[i]).word,
    ) by {
        assert(run_at(entries, start, prefix)[i] == tail[i]);
    }
    if start + n < entries.len() {
        assert(tail[n] == entries[start + n]);
    }
}

/// An entry is its word and its count, and of a row of entries each is seen.
pub proof fn lemma_entry_views(entries: Seq<SuggestionEntry>, i: int)
    requires
        0 <= i < entries.len(),
    ensures
        entry_views(entries).len() == entries.len(),
        entry_views(entries)[i].word == entries[i].word@,
        entry_views(entries)[i].count == entries[i].count,
        pairs_of(entry_views(entries))[i] == (entries[i].word@, entries[i].count),
{
}

/// What is shown are entries that were found, none more often than it was found; with room for all
/// of them all are shown, and with less room the first of these.
pub proof fn lemma_best(found: Seq<EntryView>, limit: nat)
    ensures
        best(found, limit).to_multiset().subset_of(found.to_multiset()),
        found.len() <= limit ==> best(found, limit).to_multiset() == found.to_multiset(),
        limit <= found.len() ==> best(found, limit) == best(found, found.len()).take(limit as int),
{
    broadcast use vstd::seq_lib::group_to_multiset_ensures;

    let le = rank();
    lemma_rank_is_total_order();
    found.lemma_sort_by_ensures(le);
    let ranked = found.sort_by(le);
    assert(found.to_multiset().len() == found.len());
    assert(ranked.to_multiset().len() == ranked.len());
    assert(ranked.take(ranked.len() as int) == ranked);
    if limit < ranked.len() {
        let top = ranked.take(limit as int);
        let rest = ranked.skip(limit as int);
        assert(ranked == top + rest);
        vstd::seq_lib::lemma_multiset_commutative(top, rest);
        assert(top.to_multiset().subset_of(ranked.to_multiset()));
    }
}

/// Each page gives its own title.
pub proof fn lemma_titles_of(documents: Seq<Document>, i: int)
    requires
        0 <= i < documents.len(),
    ensures
        titles_of(documents).len() == documents.len(),
        titles_of(documents)[i] == documents[i].title@,
{
}

/// The entries that bytes hold are the words and counts that are read from them, all of them and in
/// their order, whichever these are.
pub proof fn lemma_stored_entries(bytes: Seq<u8>)
    ensures
        decoded_pairs(bytes, usize::BITS as int) is None ==> stored_entries(bytes) is None,
        decoded_pairs(bytes, usize::BITS as int) matches Some(pairs) ==> (
        stored_entries(bytes) matches Some(entries) && entries.len() == pairs.len() && forall|i: int|
            0 <= i < pairs.len() ==> (#[trigger] entries[i]).word == pairs[i].0 && entries[i].count
                == pairs[i].1),
{
}

} // verus!
