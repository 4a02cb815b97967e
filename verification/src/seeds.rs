//! Where a crawl begins: literal URLs and domains, and files that list them.

use crate::text;
use crate::urls;
use vstd::prelude::*;
use vstd::string::*;

verus! {

/// What was found under the name that a seed entry may be.
pub enum SeedSource {
    /// There is no file of that name.
    NotAFile,
    /// There is a file that could not be read.
    Unreadable,
    /// There is a file that holds this text.
    Contents(String),
}

/// Each text of `list`, with a scheme in front where it has none.
pub open spec fn all_with_scheme(list: Seq<Seq<char>>) -> Seq<Seq<char>> {
    Seq::new(list.len(), |i: int| urls::with_scheme(list[i]))
}

/// The seeds that one entry gives: none where it is blank; itself where it names no file; else what
/// the file lists, one URL or domain on each line, without comments.
pub open spec fn seeds_of_entry(raw: Seq<char>, source: SeedSource) -> Seq<Seq<char>> {
    let entry = text::trimmed(raw);
    if entry.len() == 0 {
        seq![]
    } else {
        match source {
            SeedSource::NotAFile => seq![urls::with_scheme(entry)],
            SeedSource::Unreadable => seq![],
            SeedSource::Contents(contents) => all_with_scheme(text::entries_of(contents@)),
        }
    }
}

/// The seeds that the entries give, in order.
pub open spec fn seeds_of(entries: Seq<Seq<char>>, sources: Seq<SeedSource>) -> Seq<Seq<char>>
    decreases entries.len(),
{
    if entries.len() == 0 {
        seq![]
    } else {
        seeds_of(entries.drop_last(), sources.drop_last()) + seeds_of_entry(
            entries.last(),
            sources.last(),
        )
    }
}

/// The name of the file that a seed entry may be; a blank entry is none.
pub fn seed_file(raw: &str) -> (r: Option<&str>)
    ensures
        r matches Some(name) ==> name@ == text::trimmed(raw@) && name@.len() > 0,
        r is None ==> text::trimmed(raw@).len() == 0,
{
    let entry = text::trim(raw);
    if entry.is_empty() {
        None
    } else {
        Some(entry)
    }
}

/// The URLs that a crawl begins with. `sources[i]` is what was found under the name
/// `raw_entries[i]`.
pub fn resolve_seed_urls(raw_entries: &Vec<String>, sources: &Vec<SeedSource>) -> (r: Vec<String>)
    requires
        raw_entries.len() == sources.len(),
    ensures
        r.deep_view() == seeds_of(raw_entries.deep_view(), sources@),
{
    let ghost views = raw_entries.deep_view();
    let mut seeds: Vec<String> = Vec::new();
    let mut i: usize = 0;
    while i < raw_entries.len()
        invariant
            i <= raw_entries.len(),
            raw_entries.len() == sources.len(),
            views == raw_entries.deep_view(),
            seeds.deep_view() == seeds_of(views.take(i as int), sources@.take(i as int)),
        decreases raw_entries.len() - i,
    {
        let ghost before = seeds.deep_view();
        assert(views.take(i + 1).drop_last() == views.take(i as int));
        assert(views.take(i + 1).last() == raw_entries@[i as int]@);
        assert(sources@.take(i + 1).drop_last() == sources@.take(i as int));
        assert(sources@.take(i + 1).last() == sources@[i as int]);
        let entry = text::trim(raw_entries[i].as_str());
        if !entry.is_empty() {
            match &sources[i] {
                SeedSource::NotAFile => {
                    seeds.push(urls::ensure_scheme(entry));
                },
                SeedSource::Unreadable => {},
                SeedSource::Contents(contents) => {
                    let listed = text::list_entries(contents.as_str());
                    let ghost listed_views = listed.deep_view();
                    let mut j: usize = 0;
                    while j < listed.len()
                        invariant
                            j <= listed.len(),
                            listed_views == listed.deep_view(),
                            seeds.deep_view() == before + all_with_scheme(
                                listed_views.take(j as int),
                            ),
                        decreases listed.len() - j,
                    {
                        let ghost now = seeds.deep_view();
                        seeds.push(urls::ensure_scheme(listed[j].as_str()));
                        assert(seeds.deep_view() == now.push(
                            urls::with_scheme(listed_views[j as int]),
                        ));
                        assert(all_with_scheme(listed_views.take(j + 1)) == all_with_scheme(
                            listed_views.take(j as int),
                        ).push(urls::with_scheme(listed_views[j as int])));
                        j = j + 1;
                    }
                    assert(listed_views.take(listed.len() as int) == listed_views);
                },
            }
        }
        assert(seeds.deep_view() == before + seeds_of_entry(views[i as int], sources@[i as int]));
        i = i + 1;
    }
    assert(views.take(raw_entries.len() as int) == views);
    assert(sources@.take(raw_entries.len() as int) == sources@);
    seeds
}

/// Every seed has a scheme that pages are fetched by.
pub proof fn lemma_seeds_have_scheme(entries: Seq<Seq<char>>, sources: Seq<SeedSource>, i: int)
    requires
        entries.len() == sources.len(),
        0 <= i < seeds_of(entries, sources).len(),
    ensures
        urls::has_scheme(seeds_of(entries, sources)[i]),
    decreases entries.len(),
{
    let rest = seeds_of(entries.drop_last(), sources.drop_last());
    let last = seeds_of_entry(entries.last(), sources.last());
    if i < rest.len() {
        lemma_seeds_have_scheme(entries.drop_last(), sources.drop_last(), i);
    } else {
        let k = i - rest.len();
        assert(seeds_of(entries, sources)[i] == last[k]);
        match sources.last() {
            SeedSource::NotAFile => {
                urls::lemma_scheme_ensured(text::trimmed(entries.last()));
            },
            SeedSource::Unreadable => {},
            SeedSource::Contents(contents) => {
                urls::lemma_scheme_ensured(text::entries_of(contents@)[k]);
            },
        }
    }
}

/// The seeds of a row of entries are those of its first part and then those of the rest. A blank
/// entry gives none, an entry that names no file gives itself, and a file gives what it lists, each
/// with a scheme in front where it has none. A file that could not be read gives none.
pub proof fn lemma_seeds_of(
    a: Seq<Seq<char>>,
    sources_a: Seq<SeedSource>,
    b: Seq<Seq<char>>,
    sources_b: Seq<SeedSource>,
    entry: Seq<char>,
    source: SeedSource,
)
    requires
        a.len() == sources_a.len(),
        b.len() == sources_b.len(),
    ensures
        seeds_of(a + b, sources_a + sources_b) == seeds_of(a, sources_a) + seeds_of(b, sources_b),
        seeds_of(Seq::<Seq<char>>::empty(), Seq::<SeedSource>::empty()) == Seq::<Seq<char>>::empty(),
        text::trimmed(entry).len() == 0 ==> seeds_of(seq![entry], seq![source]).len() == 0,
        text::trimmed(entry).len() > 0 ==> (source is NotAFile ==> seeds_of(
            seq![entry],
            seq![source],
        ) == seq![urls::with_scheme(text::trimmed(entry))]),
        source is Unreadable ==> seeds_of(seq![entry], seq![source]).len() == 0,
        text::trimmed(entry).len() > 0 ==> (source matches SeedSource::Contents(contents)
            ==> seeds_of(seq![entry], seq![source]) == text::entries_of(contents@).map_values(
            |e: Seq<char>| urls::with_scheme(e),
        )),
    decreases b.len(),
{
    let none = Seq::<Seq<char>>::empty();
    assert(seq![entry].drop_last() == none);
    assert(seq![source].drop_last() == Seq::<SeedSource>::empty());
    assert(seeds_of(none, Seq::<SeedSource>::empty()) == none);
    assert(none + seeds_of_entry(entry, source) == seeds_of_entry(entry, source));
    assert(seeds_of(seq![entry], seq![source]) == seeds_of_entry(entry, source));
    if let SeedSource::Contents(contents) = source {
        let listed = text::entries_of(contents@);
        assert(all_with_scheme(listed) == listed.map_values(|e: Seq<char>| urls::with_scheme(e)));
    }
    if b.len() == 0 {
        assert(a + b == a);
        assert(sources_a + sources_b == sources_a);
        assert(seeds_of(a, sources_a) + seeds_of(b, sources_b) == seeds_of(a, sources_a));
    } else {
        lemma_seeds_of(a, sources_a, b.drop_last(), sources_b.drop_last(), entry, source);
        assert((a + b).drop_last() == a + b.drop_last());
        assert((sources_a + sources_b).drop_last() == sources_a + sources_b.drop_last());
        let last = seeds_of_entry(b.last(), sources_b.last());
        let rest = seeds_of(b.drop_last(), sources_b.drop_last());
        assert(seeds_of(a, sources_a) + rest + last == seeds_of(a, sources_a) + (rest + last));
    }
}

} // verus!
