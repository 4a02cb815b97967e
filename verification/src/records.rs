//! The pages that a crawl stores: one file for each root domain, one record for each page.

use crate::numbers;
use std::collections::hash_map::DefaultHasher;
use std::hash::{Hash, Hasher};
use vstd::hash_map::StringHashMap;
use vstd::hash_set::StringHashSet;
use vstd::prelude::*;
use vstd::string::*;

verus! {

/// One crawled page.
#[derive(Debug)]
pub struct PageRecord {
    pub url: String,
    pub content_type: String,
    pub retrieval_date: String,
    pub crawl_time_ms: i64,
    pub content_hash: String,
    pub body: Vec<u8>,
    pub outbound_links: Vec<String>,
}

/// One crawled page as mathematics.
#[verifier::ext_equal]
pub struct RecordView {
    pub url: Seq<char>,
    pub content_type: Seq<char>,
    pub retrieval_date: Seq<char>,
    pub crawl_time_ms: i64,
    pub content_hash: Seq<char>,
    pub body: Seq<u8>,
    pub outbound_links: Seq<Seq<char>>,
}

impl View for PageRecord {
    type V = RecordView;

    open spec fn view(&self) -> RecordView {
        RecordView {
            url: self.url@,
            content_type: self.content_type@,
            retrieval_date: self.retrieval_date@,
            crawl_time_ms: self.crawl_time_ms,
            content_hash: self.content_hash@,
            body: self.body@,
            outbound_links: self.outbound_links.deep_view(),
        }
    }
}

/// The views of a sequence of records.
pub open spec fn record_views(records: Seq<PageRecord>) -> Seq<RecordView> {
    records.map_values(|r: PageRecord| r@)
}

/// Some record of `records` is of the page `url`.
pub open spec fn has_page(records: Seq<RecordView>, url: Seq<char>) -> bool {
    exists|i: int| 0 <= i < records.len() && (#[trigger] records[i]).url == url
}

/// Those of `records` whose page is not among the pages of `others`, in order.
pub open spec fn without_pages_of(records: Seq<RecordView>, others: Seq<RecordView>) -> Seq<RecordView>
    decreases records.len(),
{
    if records.len() == 0 {
        seq![]
    } else {
        let rest = without_pages_of(records.drop_last(), others);
        if has_page(others, records.last().url) {
            rest
        } else {
            rest.push(records.last())
        }
    }
}

/// What a file that holds `existing` holds after `new` was stored: the records of other pages, then
/// the new ones.
pub open spec fn merged(existing: Seq<RecordView>, new: Seq<RecordView>) -> Seq<RecordView> {
    without_pages_of(existing, new) + new
}

/// What a file holds after new records were stored: a page that was crawled again is replaced,
/// everything else stays.
pub fn merge_records(existing: Vec<PageRecord>, new_records: Vec<PageRecord>) -> (r: Vec<PageRecord>)
    ensures
        record_views(r@) == merged(record_views(existing@), record_views(new_records@)),
{
    let ghost new_views = record_views(new_records@);
    let ghost old_views = record_views(existing@);
    let mut new_urls = StringHashSet::new();
    let mut i: usize = 0;
    while i < new_records.len()
        invariant
            i <= new_records.len(),
            new_views == record_views(new_records@),
            forall|url: Seq<char>|
                new_urls@.contains(url) <==> has_page(new_views.take(i as int), url),
        decreases new_records.len() - i,
    {
        let ghost before = new_views.take(i as int);
        let ghost now = new_views.take(i + 1);
        let ghost view = new_records@[i as int].url@;
        new_urls.insert(new_records[i].url.clone());
        assert forall|url: Seq<char>| new_urls@.contains(url) <==> has_page(now, url) by {
            if has_page(before, url) {
                let k = choose|k: int| 0 <= k < before.len() && (#[trigger] before[k]).url == url;
                assert(now[k].url == url);
            }
            if url == view {
                assert(now[i as int].url == url);
            }
            if has_page(now, url) && url != view {
                let k = choose|k: int| 0 <= k < now.len() && (#[trigger] now[k]).url == url;
                assert(before[k].url == url);
            }
        }
        i = i + 1;
    }
    assert(new_views.take(new_records.len() as int) == new_views);

    let mut r: Vec<PageRecord> = Vec::new();
    let ghost olds = existing@;
    assert(record_views(r@) == Seq::<RecordView>::empty());
    for record in it: existing
        invariant
            it.seq() == olds,
            old_views == record_views(olds),
            forall|url: Seq<char>| new_urls@.contains(url) <==> has_page(new_views, url),
            record_views(r@) == without_pages_of(old_views.take(it.index() as int), new_views),
    {
        let ghost n = it.index() as int;
        let ghost before = r@;
        assert(old_views.take(n + 1).drop_last() == old_views.take(n));
        assert(old_views.take(n + 1).last() == record@);
        if !new_urls.contains(record.url.as_str()) {
            r.push(record);
            assert(record_views(r@) == record_views(before).push(record@));
        }
    }
    assert(old_views.take(olds.len() as int) == old_views);
    let ghost kept = r@;
    let mut new_records = new_records;
    let ghost news = new_records@;
    r.append(&mut new_records);
    assert(record_views(r@) == record_views(kept) + record_views(news));
    r
}

/// What `<str as Hash>::hash` feeds to a hasher for a text: the byte strings that are written.
pub uninterp spec fn hash_writes(s: Seq<char>) -> Seq<Seq<u8>>;

/// `str::hash` writes to the hasher; what it writes depends on the text alone and comes behind what
/// was written before.
#[verifier::external_body]
fn hash_text(s: &str, state: &mut DefaultHasher)
    ensures
        final(state)@ == old(state)@ + hash_writes(s@),
{
    s.hash(state)
}

/// The number that stands for a domain in file names: that of a fresh default hasher.
pub open spec fn domain_number(domain: Seq<char>) -> u64 {
    <DefaultHasher as vstd::std_specs::hash::DefaultHasherAdditionalSpecFns>::spec_finish(
        hash_writes(domain),
    )
}

/// The number that stands for a domain in file names.
pub fn domain_hash(domain: &str) -> (r: u64)
    ensures
        r == domain_number(domain@),
{
    let mut hasher = DefaultHasher::new();
    hash_text(domain, &mut hasher);
    assert(Seq::<Seq<u8>>::empty() + hash_writes(domain@) == hash_writes(domain@));
    hasher.finish()
}

/// The name of the file that holds the pages of `domain`.
pub open spec fn file_name(domain: Seq<char>) -> Seq<char> {
    numbers::decimal(domain_number(domain) as nat, 1) + "_"@ + domain + ".parquet"@
}

/// The path, below the directory of page files, of the file that holds the pages of `domain`.
pub fn parquet_path_for_domain(domain: &str) -> (r: String)
    ensures
        r@ == file_name(domain@),
{
    let mut name = numbers::write_decimal(domain_hash(domain), 1);
    name.append("_");
    name.append(domain);
    name.append(".parquet");
    name
}

/// The records of those of `pages` that are of `domain`, in order.
pub open spec fn records_of_domain(pages: Seq<(String, PageRecord)>, domain: Seq<char>) -> Seq<RecordView>
    decreases pages.len(),
{
    if pages.len() == 0 {
        seq![]
    } else {
        let rest = records_of_domain(pages.drop_last(), domain);
        if pages.last().0@ == domain {
            rest.push(pages.last().1@)
        } else {
            rest
        }
    }
}

/// `groups` holds the records of each domain of `pages`: each domain once, its records in order.
pub open spec fn grouped(groups: Seq<(String, Vec<PageRecord>)>, pages: Seq<(String, PageRecord)>) -> bool {
    &&& forall|i: int, j: int|
        0 <= i < j < groups.len() ==> (#[trigger] groups[i]).0@ != (#[trigger] groups[j]).0@
    &&& forall|i: int|
        0 <= i < groups.len() ==> record_views((#[trigger] groups[i]).1@) == records_of_domain(
            pages,
            groups[i].0@,
        )
    &&& forall|domain: Seq<char>|
        (exists|i: int| 0 <= i < groups.len() && (#[trigger] groups[i]).0@ == domain)
            <==> #[trigger] records_of_domain(pages, domain).len() > 0
}

/// The records of each domain, in the order in which they came.
pub fn group_by_domain(pages: Vec<(String, PageRecord)>) -> (r: Vec<(String, Vec<PageRecord>)>)
    ensures
        grouped(r@, pages@),
{
    let ghost all = pages@;
    let mut groups: Vec<(String, Vec<PageRecord>)> = Vec::new();
    let mut places: StringHashMap<usize> = StringHashMap::new();
    for page in it: pages
        invariant
            it.seq() == all,
            grouped(groups@, all.take(it.index() as int)),
            forall|d: Seq<char>| #[trigger]
                places@.contains_key(d) ==> places@[d] < groups.len() && groups@[places@[d] as int].0@
                    == d,
            forall|i: int|
                0 <= i < groups.len() ==> places@.contains_key((#[trigger] groups@[i]).0@),
    {
        let ghost n = it.index() as int;
        let ghost before = groups@;
        let ghost now = all.take(n + 1);
        assert(now.drop_last() == all.take(n));
        assert(now.last() == page);
        let (domain, record) = page;
        let place = match places.get(domain.as_str()) {
            Some(p) => Some(*p),
            None => None,
        };
        match place {
            Some(p) => {
                groups[p].1.push(record);
            },
            None => {
                places.insert(domain.clone(), groups.len());
                let mut records: Vec<PageRecord> = Vec::new();
                records.push(record);
                groups.push((domain, records));
            },
        }
        proof {
            let d = page.0@;
            let at: int = match place {
                Some(p) => p as int,
                None => before.len() as int,
            };
            assert(groups@[at].0@ == d);
            assert forall|i: int| 0 <= i < groups.len() implies record_views(
                (#[trigger] groups@[i]).1@,
            ) == records_of_domain(now, groups@[i].0@) by {
                if i == at {
                    if place is Some {
                        assert(record_views(groups@[i].1@) == record_views(before[i].1@).push(page.1@));
                    } else {
                        assert(records_of_domain(all.take(n), d).len() == 0) by {
                            if records_of_domain(all.take(n), d).len() > 0 {
                                let k = choose|k: int|
                                    0 <= k < before.len() && (#[trigger] before[k]).0@ == d;
                                assert(before[k].0@ == d);
                            }
                        }
                        assert(record_views(groups@[i].1@) == seq![page.1@]);
                        assert(records_of_domain(now, d) == records_of_domain(all.take(n), d).push(
                            page.1@,
                        ));
                    }
                } else {
                    assert(groups@[i] == before[i]);
                    assert(groups@[i].0@ != d);
                }
            }
            assert forall|domain: Seq<char>|
                (exists|i: int| 0 <= i < groups.len() && (#[trigger] groups@[i]).0@ == domain)
                    <==> #[trigger] records_of_domain(now, domain).len() > 0 by {
                assert(records_of_domain(all.take(n), domain).len() > 0 <==> exists|i: int|
                    0 <= i < before.len() && (#[trigger] before[i]).0@ == domain);
                if domain != d {
                    if exists|i: int| 0 <= i < before.len() && (#[trigger] before[i]).0@ == domain {
                        let k = choose|k: int|
                            0 <= k < before.len() && (#[trigger] before[k]).0@ == domain;
                        assert(groups@[k].0@ == domain);
                    }
                    if exists|i: int| 0 <= i < groups.len() && (#[trigger] groups@[i]).0@ == domain {
                        let k = choose|k: int|
                            0 <= k < groups.len() && (#[trigger] groups@[k]).0@ == domain;
                        assert(before[k].0@ == domain);
                    }
                }
            }
        }
    }
    assert(all.take(all.len() as int) == all);
    groups
}

proof fn lemma_without_pages_concat(a: Seq<RecordView>, b: Seq<RecordView>, others: Seq<RecordView>)
    ensures
        without_pages_of(a + b, others) == without_pages_of(a, others) + without_pages_of(b, others),
    decreases b.len(),
{
    if b.len() == 0 {
        assert(a + b == a);
        assert(without_pages_of(a, others) + without_pages_of(b, others) == without_pages_of(a, others));
    } else {
        lemma_without_pages_concat(a, b.drop_last(), others);
        assert((a + b).drop_last() == a + b.drop_last());
        assert((a + b).last() == b.last());
        assert(without_pages_of(a + b, others) == without_pages_of(a, others) + without_pages_of(
            b,
            others,
        ));
    }
}

proof fn lemma_without_own_pages(records: Seq<RecordView>, others: Seq<RecordView>)
    requires
        forall|i: int| 0 <= i < records.len() ==> has_page(others, (#[trigger] records[i]).url),
    ensures
        without_pages_of(records, others) == Seq::<RecordView>::empty(),
    decreases records.len(),
{
    if records.len() > 0 {
        let rest = records.drop_last();
        assert forall|i: int| 0 <= i < rest.len() implies has_page(others, (#[trigger] rest[i]).url) by {
            assert(rest[i] == records[i]);
        }
        lemma_without_own_pages(rest, others);
        assert(has_page(others, records[records.len() - 1].url));
    }
}

proof fn lemma_without_pages_elements(records: Seq<RecordView>, others: Seq<RecordView>)
    ensures
        forall|r: RecordView| #[trigger]
            without_pages_of(records, others).contains(r) <==> records.contains(r) && !has_page(
                others,
                r.url,
            ),
        without_pages_of(without_pages_of(records, others), others) == without_pages_of(
            records,
            others,
        ),
    decreases records.len(),
{
    let kept = without_pages_of(records, others);
    if records.len() > 0 {
        let rest = records.drop_last();
        let kept_rest = without_pages_of(rest, others);
        let last = records.last();
        lemma_without_pages_elements(rest, others);
        assert forall|r: RecordView| #[trigger] kept.contains(r) <==> records.contains(r)
            && !has_page(others, r.url) by {
            assert(kept_rest.contains(r) <==> rest.contains(r) && !has_page(others, r.url));
            if records.contains(r) && r != last {
                let k = choose|k: int| 0 <= k < records.len() && records[k] == r;
                assert(rest[k] == r);
            }
            if rest.contains(r) {
                let k = choose|k: int| 0 <= k < rest.len() && rest[k] == r;
                assert(records[k] == r);
            }
            if r == last {
                assert(records[records.len() - 1] == r);
            }
            if kept.contains(r) {
                let k = choose|k: int| 0 <= k < kept.len() && kept[k] == r;
                if k < kept_rest.len() {
                    assert(kept_rest[k] == r);
                }
            }
            if kept_rest.contains(r) {
                let k = choose|k: int| 0 <= k < kept_rest.len() && kept_rest[k] == r;
                assert(kept[k] == r);
            }
            if r == last && !has_page(others, r.url) {
                assert(kept[kept.len() - 1] == r);
            }
        }
        if !has_page(others, last.url) {
            assert(kept.drop_last() == kept_rest);
        }
    }
}

/// Storing records keeps every record of another page, holds every new record, and holds nothing
/// else.
pub proof fn lemma_merge_keeps_other_pages(existing: Seq<RecordView>, new: Seq<RecordView>)
    ensures
        forall|r: RecordView| #[trigger]
            merged(existing, new).contains(r) <==> new.contains(r) || (existing.contains(r)
                && !has_page(new, r.url)),
{
    lemma_without_pages_elements(existing, new);
    let kept = without_pages_of(existing, new);
    assert forall|r: RecordView| #[trigger] merged(existing, new).contains(r) <==> new.contains(r)
        || (existing.contains(r) && !has_page(new, r.url)) by {
        assert(kept.contains(r) <==> existing.contains(r) && !has_page(new, r.url));
        let all = merged(existing, new);
        if all.contains(r) {
            let k = choose|k: int| 0 <= k < all.len() && all[k] == r;
            if k < kept.len() {
                assert(kept[k] == r);
            } else {
                assert(new[k - kept.len()] == r);
            }
        }
        if kept.contains(r) {
            let k = choose|k: int| 0 <= k < kept.len() && kept[k] == r;
            assert(all[k] == r);
        }
        if new.contains(r) {
            let k = choose|k: int| 0 <= k < new.len() && new[k] == r;
            assert(all[kept.len() + k] == r);
        }
    }
}

/// Storing the same records again changes nothing.
pub proof fn lemma_merge_twice(existing: Seq<RecordView>, new: Seq<RecordView>)
    ensures
        merged(merged(existing, new), new) == merged(existing, new),
{
    let kept = without_pages_of(existing, new);
    lemma_without_pages_concat(kept, new, new);
    lemma_without_pages_elements(existing, new);
    assert forall|i: int| 0 <= i < new.len() implies has_page(new, (#[trigger] new[i]).url) by {}
    lemma_without_own_pages(new, new);
    assert(kept + Seq::<RecordView>::empty() == kept);
}

/// Storing records keeps exactly the records of pages that are not stored anew, in their order and
/// as often as they were there, and puts all the new ones behind them.
pub proof fn lemma_merged(existing: Seq<RecordView>, new: Seq<RecordView>)
    ensures
        merged(existing, new) == existing.filter(
            |r: RecordView| !new.map_values(|n: RecordView| n.url).contains(r.url),
        ) + new,
{
    lemma_without_pages_is_filter(existing, new);
}

proof fn lemma_without_pages_is_filter(records: Seq<RecordView>, others: Seq<RecordView>)
    ensures
        without_pages_of(records, others) == records.filter(
            |r: RecordView| !others.map_values(|n: RecordView| n.url).contains(r.url),
        ),
    decreases records.len(),
{
    reveal(Seq::filter);
    if records.len() > 0 {
        let url = records.last().url;
        let addresses = others.map_values(|n: RecordView| n.url);
        lemma_without_pages_is_filter(records.drop_last(), others);
        if has_page(others, url) {
            let k = choose|k: int| 0 <= k < others.len() && (#[trigger] others[k]).url == url;
            assert(addresses[k] == url);
        }
        if addresses.contains(url) {
            let k = choose|k: int| 0 <= k < addresses.len() && addresses[k] == url;
            assert(others[k].url == url);
        }
    }
}

/// The records of a domain are those of all pages that came under it, in their order and as often
/// as they came.
pub proof fn lemma_records_of_domain(pages: Seq<(String, PageRecord)>, domain: Seq<char>)
    ensures
        records_of_domain(pages, domain) == pages.filter(
            |p: (String, PageRecord)| p.0@ == domain,
        ).map_values(|p: (String, PageRecord)| p.1@),
    decreases pages.len(),
{
    reveal(Seq::filter);
    let keep = |p: (String, PageRecord)| p.0@ == domain;
    let record = |p: (String, PageRecord)| p.1@;
    if pages.len() == 0 {
        assert(records_of_domain(pages, domain) == pages.filter(keep).map_values(record));
    } else {
        let front = pages.drop_last();
        lemma_records_of_domain(front, domain);
        if keep(pages.last()) {
            assert(front.filter(keep).push(pages.last()).map_values(record) == front.filter(
                keep,
            ).map_values(record).push(record(pages.last())));
        }
    }
}

/// `page` is of one of the domains of `groups`.
spec fn of_some_group(groups: Seq<(String, Vec<PageRecord>)>, page: (String, PageRecord)) -> bool {
    exists|i: int| 0 <= i < groups.len() && (#[trigger] groups[i]).0@ == page.0@
}

proof fn lemma_filter_of_two(
    pages: Seq<(String, PageRecord)>,
    p: spec_fn((String, PageRecord)) -> bool,
    q: spec_fn((String, PageRecord)) -> bool,
    either: spec_fn((String, PageRecord)) -> bool,
)
    requires
        forall|x: (String, PageRecord)| #[trigger] either(x) == (p(x) || q(x)),
        forall|x: (String, PageRecord)| !(#[trigger] p(x) && q(x)),
    ensures
        pages.filter(either).map_values(|x: (String, PageRecord)| x.1@).to_multiset()
            == pages.filter(p).map_values(|x: (String, PageRecord)| x.1@).to_multiset().add(
            pages.filter(q).map_values(|x: (String, PageRecord)| x.1@).to_multiset(),
        ),
    decreases pages.len(),
{
    broadcast use vstd::seq_lib::group_to_multiset_ensures;

    reveal(Seq::filter);
    let record = |x: (String, PageRecord)| x.1@;
    if pages.len() == 0 {
        assert(pages.filter(either).map_values(record) == Seq::<RecordView>::empty());
        assert(pages.filter(p).map_values(record) == Seq::<RecordView>::empty());
        assert(pages.filter(q).map_values(record) == Seq::<RecordView>::empty());
        assert(vstd::multiset::Multiset::<RecordView>::empty()
            =~= vstd::multiset::Multiset::<RecordView>::empty().add(
            vstd::multiset::Multiset::empty(),
        ));
    } else {
        let front = pages.drop_last();
        let last = pages.last();
        lemma_filter_of_two(front, p, q, either);
        let a = front.filter(p).map_values(record);
        let b = front.filter(q).map_values(record);
        let c = front.filter(either).map_values(record);
        assert(either(last) == (p(last) || q(last)));
        if p(last) {
            assert(pages.filter(p).map_values(record) == a.push(record(last)));
            assert(pages.filter(either).map_values(record) == c.push(record(last)));
            assert(c.to_multiset().insert(record(last)) =~= a.to_multiset().insert(
                record(last),
            ).add(b.to_multiset()));
        } else if q(last) {
            assert(pages.filter(q).map_values(record) == b.push(record(last)));
            assert(pages.filter(either).map_values(record) == c.push(record(last)));
            assert(c.to_multiset().insert(record(last)) =~= a.to_multiset().add(
                b.to_multiset().insert(record(last)),
            ));
        }
    }
}

proof fn lemma_groups_hold(
    groups: Seq<(String, Vec<PageRecord>)>,
    pages: Seq<(String, PageRecord)>,
    n: int,
)
    requires
        grouped(groups, pages),
        0 <= n <= groups.len(),
    ensures
        groups.take(n).map_values(|g: (String, Vec<PageRecord>)| record_views(g.1@)).flatten()
            .to_multiset() == pages.filter(
            |x: (String, PageRecord)| of_some_group(groups.take(n), x),
        ).map_values(|x: (String, PageRecord)| x.1@).to_multiset(),
    decreases n,
{
    let records = |g: (String, Vec<PageRecord>)| record_views(g.1@);
    let record = |x: (String, PageRecord)| x.1@;
    let now = |x: (String, PageRecord)| of_some_group(groups.take(n), x);
    if n == 0 {
        assert forall|i: int| 0 <= i < pages.len() implies !now(#[trigger] pages[i]) by {}
        pages.lemma_all_neg_filter_empty(now);
        assert(pages.filter(now).map_values(record) == Seq::<RecordView>::empty());
        assert(groups.take(n).map_values(records) == Seq::<Seq<RecordView>>::empty());
        assert(groups.take(n).map_values(records).flatten() == Seq::<RecordView>::empty());
    } else {
        let less = groups.take(n - 1);
        let last = groups[n - 1];
        let domain = last.0@;
        let before = |x: (String, PageRecord)| of_some_group(groups.take(n - 1), x);
        let here = |x: (String, PageRecord)| x.0@ == domain;
        lemma_groups_hold(groups, pages, n - 1);
        lemma_records_of_domain(pages, domain);
        assert(groups.take(n) == less.push(last));
        assert(groups.take(n).map_values(records) == less.map_values(records).push(records(last)));
        less.map_values(records).lemma_flatten_push(records(last));
        vstd::seq_lib::lemma_multiset_commutative(less.map_values(records).flatten(), records(last));
        assert forall|x: (String, PageRecord)| #[trigger] now(x) == (before(x) || here(x)) by {
            if before(x) {
                let i = choose|i: int| 0 <= i < less.len() && (#[trigger] less[i]).0@ == x.0@;
                assert(groups.take(n)[i].0@ == x.0@);
            }
            if here(x) {
                assert(groups.take(n)[n - 1].0@ == x.0@);
            }
            if now(x) {
                let i = choose|i: int|
                    0 <= i < groups.take(n).len() && (#[trigger] groups.take(n)[i]).0@ == x.0@;
                if i < n - 1 {
                    assert(less[i].0@ == x.0@);
                }
            }
        }
        assert forall|x: (String, PageRecord)| !(#[trigger] before(x) && here(x)) by {
            if before(x) && here(x) {
                let i = choose|i: int| 0 <= i < less.len() && (#[trigger] less[i]).0@ == x.0@;
                assert(groups[i].0@ == groups[n - 1].0@);
            }
        }
        lemma_filter_of_two(pages, before, here, now);
    }
}

/// No page is lost and none comes in: all groups together hold the records of all pages, each as
/// often as it came, and each group those that came under its domain, in their order. Every page
/// has a group, and no domain has two.
pub proof fn lemma_no_page_is_lost(
    groups: Seq<(String, Vec<PageRecord>)>,
    pages: Seq<(String, PageRecord)>,
)
    requires
        grouped(groups, pages),
    ensures
        groups.map_values(|g: (String, Vec<PageRecord>)| record_views(g.1@)).flatten().to_multiset()
            == pages.map_values(|p: (String, PageRecord)| p.1@).to_multiset(),
        groups.map_values(|g: (String, Vec<PageRecord>)| record_views(g.1@)).flatten().len()
            == pages.len(),
        forall|i: int|
            0 <= i < groups.len() ==> record_views((#[trigger] groups[i]).1@) == pages.filter(
                |p: (String, PageRecord)| p.0@ == groups[i].0@,
            ).map_values(|p: (String, PageRecord)| p.1@),
        forall|k: int|
            #![trigger pages[k]]
            0 <= k < pages.len() ==> exists|i: int|
                0 <= i < groups.len() && (#[trigger] groups[i]).0@ == pages[k].0@
                    && record_views(groups[i].1@).contains(pages[k].1@),
        forall|i: int, j: int|
            0 <= i < groups.len() && 0 <= j < groups.len() && (#[trigger] groups[i]).0@ == (
            #[trigger] groups[j]).0@ ==> i == j,
        forall|i: int| 0 <= i < groups.len() ==> (#[trigger] groups[i]).1.len() > 0,
{
    broadcast use vstd::seq_lib::group_to_multiset_ensures;

    let n = groups.len() as int;
    let records = |g: (String, Vec<PageRecord>)| record_views(g.1@);
    let record = |p: (String, PageRecord)| p.1@;
    let now = |x: (String, PageRecord)| of_some_group(groups.take(n), x);
    assert(groups.take(n) == groups);
    assert forall|k: int|
        #![trigger pages[k]]
        0 <= k < pages.len() implies exists|i: int|
        0 <= i < groups.len() && (#[trigger] groups[i]).0@ == pages[k].0@ && record_views(
            groups[i].1@,
        ).contains(pages[k].1@) by {
        let domain = pages[k].0@;
        let keep = |p: (String, PageRecord)| p.0@ == domain;
        lemma_records_of_domain(pages, domain);
        pages.lemma_filter_contains(keep, k);
        let m = choose|m: int| 0 <= m < pages.filter(keep).len() && pages.filter(keep)[m] == pages[k];
        assert(records_of_domain(pages, domain)[m] == pages[k].1@);
        assert(records_of_domain(pages, domain).len() > 0);
        let i = choose|i: int| 0 <= i < groups.len() && (#[trigger] groups[i]).0@ == domain;
        assert(record_views(groups[i].1@).contains(pages[k].1@));
    }
    assert forall|k: int| 0 <= k < pages.len() implies now(#[trigger] pages[k]) by {
        let i = choose|i: int|
            0 <= i < groups.len() && (#[trigger] groups[i]).0@ == pages[k].0@ && record_views(
                groups[i].1@,
            ).contains(pages[k].1@);
        assert(groups.take(n)[i].0@ == pages[k].0@);
    }
    lemma_filter_everything(pages, now);
    lemma_groups_hold(groups, pages, n);
    let all = groups.map_values(records).flatten();
    assert(all.to_multiset().len() == all.len());
    assert(pages.map_values(record).to_multiset().len() == pages.len());
    assert forall|i: int| 0 <= i < groups.len() implies record_views((#[trigger] groups[i]).1@)
        == pages.filter(|p: (String, PageRecord)| p.0@ == groups[i].0@).map_values(
        |p: (String, PageRecord)| p.1@,
    ) by {
        let domain = groups[i].0@;
        lemma_records_of_domain(pages, domain);
        assert((|p: (String, PageRecord)| p.0@ == domain)
            =~= (|p: (String, PageRecord)| p.0@ == groups[i].0@));
    }
    assert forall|i: int| 0 <= i < groups.len() implies (#[trigger] groups[i]).1.len() > 0 by {
        assert(records_of_domain(pages, groups[i].0@).len() > 0);
        assert(record_views(groups[i].1@).len() == groups[i].1.len());
    }
}

proof fn lemma_filter_everything(
    pages: Seq<(String, PageRecord)>,
    keep: spec_fn((String, PageRecord)) -> bool,
)
    requires
        forall|k: int| 0 <= k < pages.len() ==> keep(#[trigger] pages[k]),
    ensures
        pages.filter(keep) == pages,
    decreases pages.len(),
{
    reveal(Seq::filter);
    if pages.len() > 0 {
        let front = pages.drop_last();
        assert forall|k: int| 0 <= k < front.len() implies keep(#[trigger] front[k]) by {
            assert(front[k] == pages[k]);
        }
        lemma_filter_everything(front, keep);
        assert(keep(pages[pages.len() - 1]));
        assert(front.push(pages.last()) == pages);
    }
}

/// The name of a domain's file is the number that a fresh hasher gives to the domain, an underscore,
/// the domain and the ending of page files.
/// No two domains have the same file.
pub proof fn lemma_file_names(a: Seq<char>, b: Seq<char>)
    ensures
        exists|digits: Seq<char>|
            file_name(a) == #[trigger] (digits + seq!['_'] + a + ".parquet"@) && digits.len() > 0
                && forall|i: int|
                0 <= i < digits.len() ==> '0' as int <= (#[trigger] digits[i]) as int <= '9' as int,
        file_name(a) == numbers::decimal(
            <DefaultHasher as vstd::std_specs::hash::DefaultHasherAdditionalSpecFns>::spec_finish(
                hash_writes(a),
            ) as nat,
            1,
        ) + seq!['_'] + a + ".parquet"@,
        file_name(a) == file_name(b) ==> a == b,
{
    reveal_strlit("_");
    assert("_"@ == seq!['_']);
    let x = numbers::decimal(domain_number(a) as nat, 1);
    let y = numbers::decimal(domain_number(b) as nat, 1);
    let end = ".parquet"@;
    numbers::lemma_decimal_digits(domain_number(a) as nat, 1);
    numbers::lemma_decimal_digits(domain_number(b) as nat, 1);
    assert(file_name(a) == x + seq!['_'] + a + end);
    if file_name(a) == file_name(b) {
        let name = file_name(a);
        assert(name == y + seq!['_'] + b + end);
        assert(name[x.len() as int] == '_');
        assert(name[y.len() as int] == '_');
        if x.len() < y.len() {
            assert(name[x.len() as int] == y[x.len() as int]);
        }
        if y.len() < x.len() {
            assert(name[y.len() as int] == x[y.len() as int]);
        }
        assert(name.len() == x.len() + 1 + a.len() + end.len());
        assert(name.len() == y.len() + 1 + b.len() + end.len());
        assert forall|i: int| 0 <= i < a.len() implies a[i] == b[i] by {
            assert(name[x.len() + 1 + i] == a[i]);
            assert(name[y.len() + 1 + i] == b[i]);
        }
        assert(a == b);
    }
}

/// A record is seen with everything that it holds, and of a row of records each is seen.
pub proof fn lemma_record_views(records: Seq<PageRecord>, i: int)
    requires
        0 <= i < records.len(),
    ensures
        record_views(records).len() == records.len(),
        ({
            let view = record_views(records)[i];
            let record = records[i];
            &&& view.url == record.url@ && view.content_type == record.content_type@
            &&& view.retrieval_date == record.retrieval_date@
            &&& view.crawl_time_ms == record.crawl_time_ms
            &&& view.content_hash == record.content_hash@ && view.body == record.body@
            &&& view.outbound_links == record.outbound_links.deep_view()
        }),
{
}

} // verus!
