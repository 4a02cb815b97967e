//! The graph of links between pages, and who votes for whom in it.

use crate::links;
use crate::quality::{DomainLists, DomainQuality};
use crate::urls;
use vstd::hash_map::StringHashMap;
use vstd::prelude::*;
use vstd::string::*;

verus! {

/// A page and where it leads.
#[verifier::ext_equal]
pub struct LinkedPage {
    pub url: Seq<char>,
    pub links: Seq<Seq<char>>,
}

/// The number of times that `target` stands in `links`.
pub open spec fn mentions(links: Seq<Seq<char>>, target: Seq<char>) -> nat
    decreases links.len(),
{
    if links.len() == 0 {
        0
    } else {
        mentions(links.drop_last(), target) + if links.last() == target {
            1nat
        } else {
            0nat
        }
    }
}

/// The addresses of `pages`, each once, in the order in which they first came.
pub open spec fn nodes(pages: Seq<LinkedPage>) -> Seq<Seq<char>>
    decreases pages.len(),
{
    if pages.len() == 0 {
        seq![]
    } else {
        let rest = nodes(pages.drop_last());
        if rest.contains(pages.last().url) {
            rest
        } else {
            rest.push(pages.last().url)
        }
    }
}

/// The number of links of the page `url`: those of the last one that came under this address.
pub open spec fn link_count(pages: Seq<LinkedPage>, url: Seq<char>) -> nat
    decreases pages.len(),
{
    if pages.len() == 0 {
        0
    } else if pages.last().url == url {
        pages.last().links.len()
    } else {
        link_count(pages.drop_last(), url)
    }
}

/// `url`, `n` times.
pub open spec fn repeated(url: Seq<char>, n: nat) -> Seq<Seq<char>> {
    Seq::new(n, |i: int| url)
}

/// The pages that lead to `target`, once for each of their links to it, in the order in which they
/// came.
pub open spec fn sources(pages: Seq<LinkedPage>, target: Seq<char>) -> Seq<Seq<char>>
    decreases pages.len(),
{
    if pages.len() == 0 {
        seq![]
    } else {
        sources(pages.drop_last(), target) + repeated(
            pages.last().url,
            mentions(pages.last().links, target),
        )
    }
}

/// The votes of the pages `from`: each page with the number of its links, among which it divides
/// its rank. A page without links has no vote.
pub open spec fn votes(pages: Seq<LinkedPage>, from: Seq<Seq<char>>) -> Seq<(Seq<char>, nat)>
    decreases from.len(),
{
    if from.len() == 0 {
        seq![]
    } else {
        let rest = votes(pages, from.drop_last());
        if link_count(pages, from.last()) > 0 {
            rest.push((from.last(), link_count(pages, from.last())))
        } else {
            rest
        }
    }
}

/// The page `url` belongs to a domain that is known to be good.
pub open spec fn trusted(lists: DomainLists, url: Seq<char>) -> bool {
    match links::domain_of(url) {
        Some(domain) => lists.quality_of(domain) == DomainQuality::High,
        None => false,
    }
}

/// The sources that `inbound` lists for `target`, by their addresses.
spec fn listed_sources(
    targets: Map<Seq<char>, usize>,
    inbound: Seq<Vec<usize>>,
    names: Seq<Seq<char>>,
    target: Seq<char>,
) -> Seq<Seq<char>> {
    if targets.contains_key(target) {
        inbound[targets[target] as int]@.map_values(|s: usize| names[s as int])
    } else {
        seq![]
    }
}

/// Each target has a list of its own, and every source is one of `names` addresses.
spec fn lists_separate(targets: Map<Seq<char>, usize>, inbound: Seq<Vec<usize>>, names: nat) -> bool {
    &&& forall|t: Seq<char>| #[trigger] targets.contains_key(t) ==> targets[t] < inbound.len()
    &&& forall|t: Seq<char>, u: Seq<char>| #[trigger]
        targets.contains_key(t) && #[trigger] targets.contains_key(u) && targets[t] == targets[u]
            ==> t == u
    &&& forall|i: int, k: int|
        0 <= i < inbound.len() && 0 <= k < inbound[i].len() ==> (#[trigger] inbound[i]@[k]) < names
}

/// The graph of links between pages.
pub struct LinkGraph {
    urls: Vec<String>,
    places: StringHashMap<usize>,
    counts: Vec<usize>,
    targets: StringHashMap<usize>,
    inbound: Vec<Vec<usize>>,
    pages: Ghost<Seq<LinkedPage>>,
}

impl View for LinkGraph {
    type V = Seq<LinkedPage>;

    /// The pages that were added, in their order.
    closed spec fn view(&self) -> Seq<LinkedPage> {
        self.pages@
    }
}

/// One page in the plan of a ranking.
#[derive(Debug)]
pub struct RankNode {
    pub url: String,
    /// The page belongs to a domain that is known to be good.
    pub trusted: bool,
    /// The page has no links.
    pub dangling: bool,
    /// Who votes for the page: the place of a page in the plan, and the number of links among which
    /// it divides its rank.
    pub inbound: Vec<(usize, usize)>,
}

/// The votes that a node lists, by the addresses of the pages.
pub open spec fn node_votes(node: RankNode, names: Seq<Seq<char>>) -> Seq<(Seq<char>, nat)> {
    node.inbound@.map_values(|v: (usize, usize)| (names[v.0 as int], v.1 as nat))
}

/// `node` is what the plan says of the page `url`.
pub open spec fn plans_page(
    node: RankNode,
    pages: Seq<LinkedPage>,
    url: Seq<char>,
    lists: DomainLists,
) -> bool {
    &&& node.url@ == url
    &&& node.trusted == trusted(lists, url)
    &&& node.dangling == (link_count(pages, url) == 0)
    &&& forall|k: int| 0 <= k < node.inbound.len() ==> (#[trigger] node.inbound@[k]).0 < nodes(pages).len()
    &&& node_votes(node, nodes(pages)) == votes(pages, sources(pages, url))
}

proof fn lemma_sources_push(pages: Seq<LinkedPage>, page: LinkedPage, target: Seq<char>)
    ensures
        sources(pages.push(page), target) == sources(pages, target) + repeated(
            page.url,
            mentions(page.links, target),
        ),
{
    assert(pages.push(page).drop_last() == pages);
}

fn add_source(
    targets: &mut StringHashMap<usize>,
    inbound: &mut Vec<Vec<usize>>,
    target: &String,
    source: usize,
    Ghost(names): Ghost<Seq<Seq<char>>>,
)
    requires
        lists_separate(old(targets)@, old(inbound)@, names.len()),
        source < names.len(),
    ensures
        lists_separate(final(targets)@, final(inbound)@, names.len()),
        forall|t: Seq<char>| #[trigger]
            listed_sources(final(targets)@, final(inbound)@, names, t) == if t == target@ {
                listed_sources(old(targets)@, old(inbound)@, names, t).push(names[source as int])
            } else {
                listed_sources(old(targets)@, old(inbound)@, names, t)
            },
{
    let place = match targets.get(target.as_str()) {
        Some(p) => Some(*p),
        None => None,
    };
    match place {
        Some(p) => {
            inbound[p].push(source);
        },
        None => {
            let mut list: Vec<usize> = Vec::new();
            list.push(source);
            targets.insert(target.clone(), inbound.len());
            inbound.push(list);
        },
    }
    assert forall|t: Seq<char>| #[trigger] listed_sources(targets@, inbound@, names, t) == if t
        == target@ {
        listed_sources(old(targets)@, old(inbound)@, names, t).push(names[source as int])
    } else {
        listed_sources(old(targets)@, old(inbound)@, names, t)
    } by {
        if t == target@ {
            assert(listed_sources(targets@, inbound@, names, t) == listed_sources(
                old(targets)@,
                old(inbound)@,
                names,
                t,
            ).push(names[source as int]));
        } else if targets@.contains_key(t) {
            assert(inbound@[targets@[t] as int] == old(inbound)@[targets@[t] as int]);
        }
    }
}

impl LinkGraph {
    /// What holds of every graph: it lists the pages that were added, their numbers of links, and
    /// for each address the pages that lead to it.
    pub closed spec fn wf(self) -> bool {
        &&& self.urls.deep_view() == nodes(self@)
        &&& forall|i: int|
            0 <= i < nodes(self@).len() ==> (#[trigger] nodes(self@)[i]).len() <= urls::MAX_URL
        &&& forall|url: Seq<char>| #[trigger]
            self.places@.contains_key(url) <==> nodes(self@).contains(url)
        &&& forall|url: Seq<char>| #[trigger]
            self.places@.contains_key(url) ==> self.places@[url] < self.urls.len() && nodes(
                self@,
            )[self.places@[url] as int] == url
        &&& self.counts.len() == self.urls.len()
        &&& forall|i: int|
            0 <= i < self.counts.len() ==> (#[trigger] self.counts@[i]) == link_count(
                self@,
                nodes(self@)[i],
            )
        &&& lists_separate(self.targets@, self.inbound@, nodes(self@).len())
        &&& forall|t: Seq<char>| #[trigger]
            listed_sources(self.targets@, self.inbound@, nodes(self@), t) == sources(self@, t)
    }

    /// The graph without pages.
    pub fn new() -> (r: LinkGraph)
        ensures
            r.wf(),
            r@ == Seq::<LinkedPage>::empty(),
    {
        let r = LinkGraph {
            urls: Vec::new(),
            places: StringHashMap::new(),
            counts: Vec::new(),
            targets: StringHashMap::new(),
            inbound: Vec::new(),
            pages: Ghost(Seq::empty()),
        };
        assert(r.urls.deep_view() == Seq::<Seq<char>>::empty());
        assert forall|t: Seq<char>| #[trigger]
            listed_sources(r.targets@, r.inbound@, nodes(r@), t) == sources(r@, t) by {}
        r
    }
}

/// No page is listed twice.
pub proof fn lemma_nodes_distinct(pages: Seq<LinkedPage>)
    ensures
        nodes(pages).no_duplicates(),
        forall|url: Seq<char>| #[trigger]
            nodes(pages).contains(url) <==> exists|i: int|
                0 <= i < pages.len() && (#[trigger] pages[i]).url == url,
    decreases pages.len(),
{
    if pages.len() > 0 {
        let front = pages.drop_last();
        let rest = nodes(front);
        let last = pages.last().url;
        lemma_nodes_distinct(front);
        assert forall|url: Seq<char>| #[trigger]
            nodes(pages).contains(url) <==> exists|i: int|
                0 <= i < pages.len() && (#[trigger] pages[i]).url == url by {
            lemma_push_contains(rest, last, url);
            assert(nodes(pages).contains(url) <==> rest.contains(url) || url == last);
            if rest.contains(url) {
                let k = choose|k: int| 0 <= k < front.len() && (#[trigger] front[k]).url == url;
                assert(pages[k].url == url);
            }
            if url == last {
                assert(pages[pages.len() - 1].url == url);
            }
            if exists|i: int| 0 <= i < pages.len() && (#[trigger] pages[i]).url == url {
                let k = choose|k: int| 0 <= k < pages.len() && (#[trigger] pages[k]).url == url;
                if k < front.len() {
                    assert(front[k].url == url);
                }
            }
        }
        if !rest.contains(last) {
            assert forall|i: int, j: int|
                0 <= i < nodes(pages).len() && 0 <= j < nodes(pages).len() && i
                    != j implies nodes(pages)[i] != nodes(pages)[j] by {
                assert(i < rest.len() ==> rest.contains(rest[i]));
                assert(j < rest.len() ==> rest.contains(rest[j]));
            }
        }
    }
}

proof fn lemma_push_contains(s: Seq<Seq<char>>, last: Seq<char>, x: Seq<char>)
    ensures
        s.push(last).contains(x) <==> s.contains(x) || x == last,
{
    if s.contains(x) {
        let k = choose|k: int| 0 <= k < s.len() && s[k] == x;
        assert(s.push(last)[k] == x);
    }
    assert(s.push(last)[s.len() as int] == last);
}

impl LinkGraph {
    /// Adds a page. A page that comes again under the same address takes the place of the first
    /// one, but the links of both count as votes.
    pub fn add_page(&mut self, url: &str, outbound_links: &Vec<String>)
        requires
            old(self).wf(),
            url@.len() <= urls::MAX_URL,
        ensures
            final(self).wf(),
            final(self)@ == old(self)@.push(
                (LinkedPage { url: url@, links: outbound_links.deep_view() }),
            ),
    {
        let ghost before = self@;
        let ghost page = LinkedPage { url: url@, links: outbound_links.deep_view() };
        let ghost pages = before.push(page);
        let ghost views = outbound_links.deep_view();
        let ghost old_names = nodes(before);
        let ghost names = nodes(pages);
        let ghost old_counts = self.counts@;
        assert(pages.drop_last() == before);
        proof {
            lemma_nodes_distinct(before);
            lemma_nodes_distinct(pages);
        }
        let known = match self.places.get(url) {
            Some(p) => Some(*p),
            None => None,
        };
        let place: usize = match known {
            Some(p) => p,
            None => self.urls.len(),
        };
        if known.is_none() {
            self.places.insert(url.to_owned(), place);
            self.urls.push(url.to_owned());
            self.counts.push(outbound_links.len());
        } else {
            self.counts.set(place, outbound_links.len());
        }
        assert(self.urls.deep_view() == names);
        assert(names[place as int] == url@);
        assert forall|i: int| 0 <= i < names.len() implies (#[trigger] names[i]).len()
            <= urls::MAX_URL by {
            if i != place {
                assert(old_names[i] == names[i]);
            }
        }
        assert forall|i: int| 0 <= i < self.counts.len() implies (#[trigger] self.counts@[i])
            == link_count(pages, names[i]) by {
            if i != place {
                assert(names[i] != url@);
                assert(old_names[i] == names[i]);
                assert(self.counts@[i] == old_counts[i]);
            }
        }
        assert forall|u: Seq<char>| #[trigger]
            self.places@.contains_key(u) <==> names.contains(u) by {
            lemma_push_contains(old_names, url@, u);
            assert(old_names.contains(u) ==> names.contains(u));
        }
        assert forall|u: Seq<char>| #[trigger] self.places@.contains_key(u) implies self.places@[u]
            < self.urls.len() && names[self.places@[u] as int] == u by {
            if u != url@ {
                assert(old_names.contains(u));
            }
        }
        assert forall|t: Seq<char>| #[trigger]
            listed_sources(self.targets@, self.inbound@, names, t) == sources(before, t) + repeated(
                url@,
                mentions(views.take(0), t),
            ) by {
            assert(listed_sources(self.targets@, self.inbound@, old_names, t) == sources(before, t));
            assert(listed_sources(self.targets@, self.inbound@, names, t) == sources(before, t));
            assert(views.take(0) == Seq::<Seq<char>>::empty());
        }
        let mut j: usize = 0;
        while j < outbound_links.len()
            invariant
                j <= outbound_links.len(),
                views == outbound_links.deep_view(),
                place < names.len(),
                names[place as int] == url@,
                forall|i: int| 0 <= i < names.len() ==> (#[trigger] names[i]).len() <= urls::MAX_URL,
                self.urls.deep_view() == names,
                forall|u: Seq<char>| #[trigger] self.places@.contains_key(u) <==> names.contains(u),
                forall|u: Seq<char>| #[trigger]
                    self.places@.contains_key(u) ==> self.places@[u] < self.urls.len()
                        && names[self.places@[u] as int] == u,
                self.counts.len() == self.urls.len(),
                forall|i: int|
                    0 <= i < self.counts.len() ==> (#[trigger] self.counts@[i]) == link_count(
                        pages,
                        names[i],
                    ),
                lists_separate(self.targets@, self.inbound@, names.len()),
                forall|t: Seq<char>| #[trigger]
                    listed_sources(self.targets@, self.inbound@, names, t) == sources(before, t)
                        + repeated(url@, mentions(views.take(j as int), t)),
            decreases outbound_links.len() - j,
        {
            let ghost targets_before = self.targets@;
            let ghost inbound_before = self.inbound@;
            add_source(
                &mut self.targets,
                &mut self.inbound,
                &outbound_links[j],
                place,
                Ghost(names),
            );
            assert(views.take(j + 1).drop_last() == views.take(j as int));
            assert(views.take(j + 1).last() == outbound_links@[j as int]@);
            assert forall|t: Seq<char>| #[trigger]
                listed_sources(self.targets@, self.inbound@, names, t) == sources(before, t)
                    + repeated(url@, mentions(views.take(j + 1), t)) by {
                assert(listed_sources(targets_before, inbound_before, names, t) == sources(
                    before,
                    t,
                ) + repeated(url@, mentions(views.take(j as int), t)));
                assert(sources(before, t) + repeated(url@, mentions(views.take(j + 1), t)) == if t
                    == views[j as int] {
                    (sources(before, t) + repeated(url@, mentions(views.take(j as int), t))).push(
                        url@,
                    )
                } else {
                    sources(before, t) + repeated(url@, mentions(views.take(j as int), t))
                });
            }
            j = j + 1;
        }
        assert(views.take(outbound_links.len() as int) == views);
        self.pages = Ghost(pages);
        assert forall|t: Seq<char>| #[trigger]
            listed_sources(self.targets@, self.inbound@, nodes(self@), t) == sources(self@, t) by {
            lemma_sources_push(before, page, t);
        }
    }
}

proof fn lemma_source_is_node(pages: Seq<LinkedPage>, target: Seq<char>)
    ensures
        forall|k: int|
            0 <= k < sources(pages, target).len() ==> nodes(pages).contains(
                #[trigger] sources(pages, target)[k],
            ),
    decreases pages.len(),
{
    if pages.len() > 0 {
        let front = pages.drop_last();
        lemma_source_is_node(front, target);
        lemma_nodes_distinct(front);
        lemma_nodes_distinct(pages);
        assert forall|k: int| 0 <= k < sources(pages, target).len() implies nodes(pages).contains(
            #[trigger] sources(pages, target)[k],
        ) by {
            let url = sources(pages, target)[k];
            if k < sources(front, target).len() {
                assert(nodes(front).contains(url));
                let m = choose|m: int| 0 <= m < front.len() && (#[trigger] front[m]).url == url;
                assert(pages[m].url == url);
            } else {
                assert(pages[pages.len() - 1].url == url);
            }
        }
    }
}

impl LinkGraph {
    /// Who votes for the page at `place`.
    fn votes_for(&self, place: usize) -> (r: Vec<(usize, usize)>)
        requires
            self.wf(),
            place < nodes(self@).len(),
        ensures
            forall|k: int| 0 <= k < r.len() ==> (#[trigger] r@[k]).0 < nodes(self@).len(),
            r@.map_values(|v: (usize, usize)| (nodes(self@)[v.0 as int], v.1 as nat)) == votes(
                self@,
                sources(self@, nodes(self@)[place as int]),
            ),
    {
        let ghost pages = self@;
        let ghost names = nodes(self@);
        let ghost from = sources(pages, names[place as int]);
        let mut r: Vec<(usize, usize)> = Vec::new();
        let ghost by_name = |v: (usize, usize)| (names[v.0 as int], v.1 as nat);
        assert(self.urls.deep_view()[place as int] == self.urls@[place as int]@);
        assert(listed_sources(self.targets@, self.inbound@, names, names[place as int]) == from);
        assert(r@.map_values(by_name) == votes(pages, Seq::<Seq<char>>::empty()));
        if let Some(p) = self.targets.get(self.urls[place].as_str()) {
            let list = &self.inbound[*p];
            let mut k: usize = 0;
            assert(from.take(0) == Seq::<Seq<char>>::empty());
            while k < list.len()
                invariant
                    self.wf(),
                    pages == self@,
                    names == nodes(self@),
                    k <= list.len() == from.len(),
                    *p < self.inbound.len(),
                    list@ == self.inbound@[*p as int]@,
                    from == list@.map_values(|s: usize| names[s as int]),
                    by_name == (|v: (usize, usize)| (names[v.0 as int], v.1 as nat)),
                    forall|m: int| 0 <= m < r.len() ==> (#[trigger] r@[m]).0 < names.len(),
                    r@.map_values(by_name) == votes(pages, from.take(k as int)),
                decreases list.len() - k,
            {
                let source = list[k];
                let ghost before = r@;
                assert(self.inbound@[*p as int]@[k as int] < names.len());
                assert(from.take(k + 1).drop_last() == from.take(k as int));
                assert(from.take(k + 1).last() == names[source as int]);
                let count = self.counts[source];
                if count > 0 {
                    r.push((source, count));
                    assert(r@.map_values(by_name) == before.map_values(by_name).push(
                        (names[source as int], count as nat),
                    ));
                }
                k = k + 1;
            }
            assert(from.take(list.len() as int) == from);
        }
        r
    }

    /// The plan of a ranking: for each page of the graph whether it is trusted, whether it has no
    /// links, and who votes for it.
    pub fn plan(&self, lists: &DomainLists) -> (r: Vec<RankNode>)
        requires
            self.wf(),
        ensures
            r.len() == nodes(self@).len(),
            forall|i: int|
                0 <= i < r.len() ==> plans_page(
                    #[trigger] r@[i],
                    self@,
                    nodes(self@)[i],
                    *lists,
                ),
    {
        let mut r: Vec<RankNode> = Vec::new();
        let mut i: usize = 0;
        while i < self.urls.len()
            invariant
                self.wf(),
                i <= self.urls.len(),
                r.len() == i,
                forall|k: int|
                    0 <= k < i ==> plans_page(#[trigger] r@[k], self@, nodes(self@)[k], *lists),
            decreases self.urls.len() - i,
        {
            let ghost url = nodes(self@)[i as int];
            assert(self.urls.deep_view()[i as int] == self.urls@[i as int]@);
            let trusted = match urls::url_parts(self.urls[i].as_str()) {
                Some((_scheme, Some(domain))) => match lists.score_domain_quality(domain.as_str()) {
                    DomainQuality::High => true,
                    _ => false,
                },
                _ => false,
            };
            let node = RankNode {
                url: self.urls[i].clone(),
                trusted,
                dangling: self.counts[i] == 0,
                inbound: self.votes_for(i),
            };
            assert(plans_page(node, self@, url, *lists));
            r.push(node);
            i = i + 1;
        }
        assert(self.urls.deep_view().len() == self.urls.len());
        r
    }

    /// The place of the page `url` in the plan.
    pub fn place_of(&self, url: &str) -> (r: Option<usize>)
        requires
            self.wf(),
        ensures
            r matches Some(i) ==> i < nodes(self@).len() && nodes(self@)[i as int] == url@,
            r is None ==> !nodes(self@).contains(url@),
    {
        match self.places.get(url) {
            Some(p) => {
                assert(self.urls.deep_view().len() == self.urls.len());
                Some(*p)
            },
            None => None,
        }
    }
}

/// Every vote comes from a page of the graph that has links.
pub proof fn lemma_voters_have_links(pages: Seq<LinkedPage>, target: Seq<char>)
    ensures
        forall|k: int|
            0 <= k < votes(pages, sources(pages, target)).len() ==> {
                let vote = #[trigger] votes(pages, sources(pages, target))[k];
                nodes(pages).contains(vote.0) && vote.1 == link_count(pages, vote.0) && vote.1 > 0
            },
{
    lemma_source_is_node(pages, target);
    lemma_votes_of_nodes(pages, sources(pages, target));
}

proof fn lemma_votes_of_nodes(pages: Seq<LinkedPage>, from: Seq<Seq<char>>)
    requires
        forall|k: int| 0 <= k < from.len() ==> nodes(pages).contains(#[trigger] from[k]),
    ensures
        forall|k: int|
            0 <= k < votes(pages, from).len() ==> {
                let vote = #[trigger] votes(pages, from)[k];
                nodes(pages).contains(vote.0) && vote.1 == link_count(pages, vote.0) && vote.1 > 0
            },
    decreases from.len(),
{
    if from.len() > 0 {
        let front = from.drop_last();
        assert forall|k: int| 0 <= k < front.len() implies nodes(pages).contains(
            #[trigger] front[k],
        ) by {
            assert(front[k] == from[k]);
        }
        lemma_votes_of_nodes(pages, front);
        assert(nodes(pages).contains(from[from.len() - 1]));
        assert forall|k: int| 0 <= k < votes(pages, from).len() implies {
            let vote = #[trigger] votes(pages, from)[k];
            nodes(pages).contains(vote.0) && vote.1 == link_count(pages, vote.0) && vote.1 > 0
        } by {
            if k < votes(pages, front).len() {
                assert(votes(pages, from)[k] == votes(pages, front)[k]);
            }
        }
    }
}

/// No address came twice.
pub open spec fn distinct_pages(pages: Seq<LinkedPage>) -> bool {
    forall|i: int, j: int|
        0 <= i < j < pages.len() ==> (#[trigger] pages[i]).url != (#[trigger] pages[j]).url
}

proof fn lemma_mentions_concat(a: Seq<Seq<char>>, b: Seq<Seq<char>>, x: Seq<char>)
    ensures
        mentions(a + b, x) == mentions(a, x) + mentions(b, x),
    decreases b.len(),
{
    if b.len() == 0 {
        assert(a + b == a);
    } else {
        lemma_mentions_concat(a, b.drop_last(), x);
        assert((a + b).drop_last() == a + b.drop_last());
        assert((a + b).last() == b.last());
    }
}

proof fn lemma_mentions_repeated(url: Seq<char>, n: nat, x: Seq<char>)
    ensures
        mentions(repeated(url, n), x) == if x == url {
            n
        } else {
            0
        },
    decreases n,
{
    if n > 0 {
        let less = (n - 1) as nat;
        lemma_mentions_repeated(url, less, x);
        assert(repeated(url, n).drop_last() == repeated(url, less));
    }
}

proof fn lemma_no_source(pages: Seq<LinkedPage>, target: Seq<char>, url: Seq<char>)
    requires
        forall|i: int| 0 <= i < pages.len() ==> (#[trigger] pages[i]).url != url,
    ensures
        mentions(sources(pages, target), url) == 0,
    decreases pages.len(),
{
    if pages.len() > 0 {
        let front = pages.drop_last();
        let last = pages.last();
        assert forall|i: int| 0 <= i < front.len() implies (#[trigger] front[i]).url != url by {
            assert(front[i] == pages[i]);
        }
        lemma_no_source(front, target, url);
        lemma_mentions_concat(
            sources(front, target),
            repeated(last.url, mentions(last.links, target)),
            url,
        );
        lemma_mentions_repeated(last.url, mentions(last.links, target), url);
        assert(pages[pages.len() - 1].url != url);
    }
}

/// Where no address came twice, a page votes for a target once for each of its links to it, and
/// divides its rank by the number of its links.
pub proof fn lemma_one_vote_per_link(pages: Seq<LinkedPage>, i: int, target: Seq<char>)
    requires
        distinct_pages(pages),
        0 <= i < pages.len(),
    ensures
        mentions(sources(pages, target), pages[i].url) == mentions(pages[i].links, target),
        link_count(pages, pages[i].url) == pages[i].links.len(),
    decreases pages.len(),
{
    let front = pages.drop_last();
    let last = pages.last();
    let url = pages[i].url;
    let given = repeated(last.url, mentions(last.links, target));
    lemma_mentions_concat(sources(front, target), given, url);
    lemma_mentions_repeated(last.url, mentions(last.links, target), url);
    assert(distinct_pages(front)) by {
        assert forall|a: int, b: int| 0 <= a < b < front.len() implies (#[trigger] front[a]).url != (
        #[trigger] front[b]).url by {
            assert(front[a] == pages[a] && front[b] == pages[b]);
        }
    }
    if i < front.len() {
        lemma_one_vote_per_link(front, i, target);
        assert(front[i] == pages[i]);
        assert(pages[i].url != pages[pages.len() - 1].url);
    } else {
        assert forall|k: int| 0 <= k < front.len() implies (#[trigger] front[k]).url != url by {
            assert(front[k] == pages[k]);
        }
        lemma_no_source(front, target, url);
    }
}

/// How often `targets` are mentioned in `links`, all together.
pub open spec fn all_mentions(links: Seq<Seq<char>>, targets: Seq<Seq<char>>) -> nat
    decreases targets.len(),
{
    if targets.len() == 0 {
        0
    } else {
        all_mentions(links, targets.drop_last()) + mentions(links, targets.last())
    }
}

/// The number of votes of the page `url` for all of `targets` together.
pub open spec fn votes_given(pages: Seq<LinkedPage>, targets: Seq<Seq<char>>, url: Seq<char>) -> nat
    decreases targets.len(),
{
    if targets.len() == 0 {
        0
    } else {
        votes_given(pages, targets.drop_last(), url) + mentions(
            sources(pages, targets.last()),
            url,
        )
    }
}

proof fn lemma_one_link_more(links: Seq<Seq<char>>, targets: Seq<Seq<char>>)
    requires
        links.len() > 0,
        targets.no_duplicates(),
    ensures
        all_mentions(links, targets) <= all_mentions(links.drop_last(), targets) + 1,
        !targets.contains(links.last()) ==> all_mentions(links, targets) == all_mentions(
            links.drop_last(),
            targets,
        ),
    decreases targets.len(),
{
    if targets.len() > 0 {
        let front = targets.drop_last();
        assert(front.no_duplicates()) by {
            assert forall|i: int, j: int|
                0 <= i < front.len() && 0 <= j < front.len() && i != j implies front[i]
                != front[j] by {
                assert(targets[i] != targets[j]);
            }
        }
        lemma_one_link_more(links, front);
        assert(targets.contains(targets[targets.len() - 1]));
        if front.contains(links.last()) {
            let k = choose|k: int| 0 <= k < front.len() && front[k] == links.last();
            assert(targets[k] == links.last());
            assert(targets[k] != targets[targets.len() - 1]);
        }
    }
}

proof fn lemma_mentions_bounded(links: Seq<Seq<char>>, targets: Seq<Seq<char>>)
    requires
        targets.no_duplicates(),
    ensures
        all_mentions(links, targets) <= links.len(),
    decreases links.len(),
{
    if links.len() == 0 {
        lemma_nothing_mentioned(links, targets);
    } else {
        lemma_mentions_bounded(links.drop_last(), targets);
        lemma_one_link_more(links, targets);
    }
}

proof fn lemma_nothing_mentioned(links: Seq<Seq<char>>, targets: Seq<Seq<char>>)
    requires
        links.len() == 0,
    ensures
        all_mentions(links, targets) == 0,
    decreases targets.len(),
{
    if targets.len() > 0 {
        lemma_nothing_mentioned(links, targets.drop_last());
    }
}

proof fn lemma_votes_are_mentions(pages: Seq<LinkedPage>, i: int, targets: Seq<Seq<char>>)
    requires
        distinct_pages(pages),
        0 <= i < pages.len(),
    ensures
        votes_given(pages, targets, pages[i].url) == all_mentions(pages[i].links, targets),
    decreases targets.len(),
{
    if targets.len() > 0 {
        lemma_votes_are_mentions(pages, i, targets.drop_last());
        lemma_one_vote_per_link(pages, i, targets.last());
    }
}

/// Where no address came twice, a page gives away no more of its rank than it has: it has at most
/// as many votes as links, and each is worth its rank divided by that number.
pub proof fn lemma_rank_is_divided(pages: Seq<LinkedPage>, i: int)
    requires
        distinct_pages(pages),
        0 <= i < pages.len(),
    ensures
        votes_given(pages, nodes(pages), pages[i].url) <= link_count(pages, pages[i].url),
{
    lemma_nodes_distinct(pages);
    lemma_votes_are_mentions(pages, i, nodes(pages));
    lemma_mentions_bounded(pages[i].links, nodes(pages));
    lemma_one_vote_per_link(pages, i, pages[i].url);
}

/// A target is mentioned as often as it stands among the links.
pub proof fn lemma_mentions(links: Seq<Seq<char>>, target: Seq<char>)
    ensures
        mentions(links, target) == links.filter(|l: Seq<char>| l == target).len(),
    decreases links.len(),
{
    reveal(Seq::filter);
    if links.len() > 0 {
        lemma_mentions(links.drop_last(), target);
    }
}

/// The pages of a graph stand in the order in which their addresses first came: of two pages the one
/// that stands first came before the other one ever did.
pub proof fn lemma_nodes_in_order(pages: Seq<LinkedPage>, i: int, j: int, m: int)
    requires
        0 <= i < j < nodes(pages).len(),
        0 <= m < pages.len(),
        pages[m].url == nodes(pages)[j],
    ensures
        exists|k: int| 0 <= k < m && (#[trigger] pages[k]).url == nodes(pages)[i],
    decreases pages.len(),
{
    let front = pages.drop_last();
    let rest = nodes(front);
    let first = nodes(pages)[i];
    lemma_nodes_distinct(front);
    assert(first == rest[i]);
    assert(rest.contains(rest[i]));
    let e = choose|e: int| 0 <= e < front.len() && (#[trigger] front[e]).url == rest[i];
    if m < front.len() {
        assert(front[m].url == nodes(pages)[j]);
        assert(rest.contains(front[m].url));
        if j < rest.len() {
            lemma_nodes_in_order(front, i, j, m);
            let k = choose|k: int| 0 <= k < m && (#[trigger] front[k]).url == rest[i];
            assert(pages[k].url == first);
        } else {
            assert(!rest.contains(pages.last().url));
        }
    } else {
        assert(pages[e].url == first);
    }
}

/// A page has the links of the last one that came under its address; an address that never came has
/// none.
pub proof fn lemma_link_count(pages: Seq<LinkedPage>, url: Seq<char>)
    ensures
        forall|i: int|
            0 <= i < pages.len() && (#[trigger] pages[i]).url == url && (forall|j: int|
                i < j < pages.len() ==> (#[trigger] pages[j]).url != url) ==> link_count(pages, url)
                == pages[i].links.len(),
        (forall|i: int| 0 <= i < pages.len() ==> (#[trigger] pages[i]).url != url) ==> link_count(
            pages,
            url,
        ) == 0,
    decreases pages.len(),
{
    if pages.len() > 0 {
        let front = pages.drop_last();
        lemma_link_count(front, url);
        assert forall|i: int|
            0 <= i < pages.len() && (#[trigger] pages[i]).url == url && (forall|j: int|
                i < j < pages.len() ==> (#[trigger] pages[j]).url != url) implies link_count(
            pages,
            url,
        ) == pages[i].links.len() by {
            if i < front.len() {
                assert(pages[pages.len() - 1].url != url);
                assert(front[i] == pages[i]);
                assert forall|j: int| i < j < front.len() implies (#[trigger] front[j]).url
                    != url by {
                    assert(front[j] == pages[j]);
                }
            }
        }
        if forall|i: int| 0 <= i < pages.len() ==> (#[trigger] pages[i]).url != url {
            assert(pages[pages.len() - 1].url != url);
            assert forall|i: int| 0 <= i < front.len() implies (#[trigger] front[i]).url != url by {
                assert(front[i] == pages[i]);
            }
        }
    }
}

/// The sources of a target are those of the first pages and then those of the others, and a single
/// page is one as often as the target stands among its links.
pub proof fn lemma_sources(a: Seq<LinkedPage>, b: Seq<LinkedPage>, page: LinkedPage, target: Seq<char>)
    ensures
        sources(a + b, target) == sources(a, target) + sources(b, target),
        sources(seq![page], target).len() == page.links.filter(
            |l: Seq<char>| l == target,
        ).len(),
        forall|k: int|
            0 <= k < sources(seq![page], target).len() ==> #[trigger] sources(seq![page], target)[k]
                == page.url,
        sources(Seq::<LinkedPage>::empty(), target) == Seq::<Seq<char>>::empty(),
    decreases b.len(),
{
    let none = Seq::<LinkedPage>::empty();
    lemma_mentions(page.links, target);
    assert(seq![page] == none.push(page));
    lemma_sources_push(none, page, target);
    if b.len() == 0 {
        assert(a + b == a);
        assert(sources(a, target) + sources(b, target) == sources(a, target));
    } else {
        let front = b.drop_last();
        lemma_sources(a, front, page, target);
        assert((a + b).drop_last() == a + front);
        let given = repeated(b.last().url, mentions(b.last().links, target));
        assert(sources(a, target) + sources(front, target) + given == sources(a, target) + (sources(
            front,
            target,
        ) + given));
    }
}

/// Every source that has links votes, once for each time that it is a source and with the number of
/// its links; nobody else does, and no vote is left out.
pub proof fn lemma_every_source_votes(pages: Seq<LinkedPage>, from: Seq<Seq<char>>)
    ensures
        votes(pages, from) == from.filter(|u: Seq<char>| link_count(pages, u) > 0).map_values(
            |u: Seq<char>| (u, link_count(pages, u)),
        ),
        votes(pages, from).len() == from.filter(|u: Seq<char>| link_count(pages, u) > 0).len(),
    decreases from.len(),
{
    reveal(Seq::filter);
    let keep = |u: Seq<char>| link_count(pages, u) > 0;
    let vote = |u: Seq<char>| (u, link_count(pages, u));
    if from.len() == 0 {
        assert(votes(pages, from) == from.filter(keep).map_values(vote));
    } else {
        let front = from.drop_last();
        let last = from.last();
        lemma_every_source_votes(pages, front);
        if link_count(pages, last) > 0 {
            assert(from.filter(keep) == front.filter(keep).push(last));
            assert(front.filter(keep).push(last).map_values(vote) == front.filter(keep).map_values(
                vote,
            ).push(vote(last)));
        }
        assert(votes(pages, from) == from.filter(keep).map_values(vote));
    }
}

/// A page that has links has as many votes as it stands among the sources.
pub proof fn lemma_votes_of_source(pages: Seq<LinkedPage>, from: Seq<Seq<char>>, url: Seq<char>)
    requires
        link_count(pages, url) > 0,
    ensures
        votes(pages, from).filter(|v: (Seq<char>, nat)| v.0 == url).len() == from.filter(
            |u: Seq<char>| u == url,
        ).len(),
    decreases from.len(),
{
    reveal(Seq::filter);
    if from.len() > 0 {
        lemma_votes_of_source(pages, from.drop_last(), url);
        if link_count(pages, from.last()) > 0 {
            assert(votes(pages, from).drop_last() == votes(pages, from.drop_last()));
        }
    }
}

/// Where no address came twice, a page gives a target exactly as many votes as it has links to it,
/// each with the number of all its links.
pub proof fn lemma_links_are_votes(pages: Seq<LinkedPage>, i: int, target: Seq<char>)
    requires
        distinct_pages(pages),
        0 <= i < pages.len(),
    ensures
        votes(pages, sources(pages, target)).filter(
            |v: (Seq<char>, nat)| v == (pages[i].url, pages[i].links.len()),
        ).len() == pages[i].links.filter(|l: Seq<char>| l == target).len(),
        votes(pages, sources(pages, target)).filter(
            |v: (Seq<char>, nat)| v.0 == pages[i].url,
        ).len() == pages[i].links.filter(|l: Seq<char>| l == target).len(),
{
    let from = sources(pages, target);
    let all = votes(pages, from);
    let url = pages[i].url;
    let links = pages[i].links;
    lemma_one_vote_per_link(pages, i, target);
    lemma_mentions(links, target);
    lemma_mentions(from, url);
    lemma_votes_are_counted(pages, from);
    let by_url = |v: (Seq<char>, nat)| v.0 == url;
    let whole = |v: (Seq<char>, nat)| v == (url, links.len());
    lemma_same_filter(all, by_url, whole);
    assert(by_url =~= |v: (Seq<char>, nat)| v.0 == pages[i].url);
    assert(whole =~= |v: (Seq<char>, nat)| v == (pages[i].url, pages[i].links.len()));
    assert((|u: Seq<char>| u == url) =~= (|l: Seq<char>| l == url));
    assert(link_count(pages, url) == links.len());
    if links.len() > 0 {
        lemma_votes_of_source(pages, from, url);
    }
    if links.len() == 0 {
        assert forall|k: int| 0 <= k < all.len() implies !by_url(#[trigger] all[k]) by {}
        all.lemma_all_neg_filter_empty(by_url);
    }
}

proof fn lemma_votes_are_counted(pages: Seq<LinkedPage>, from: Seq<Seq<char>>)
    ensures
        forall|k: int|
            0 <= k < votes(pages, from).len() ==> (#[trigger] votes(pages, from)[k]).1
                == link_count(pages, votes(pages, from)[k].0) && votes(pages, from)[k].1 > 0,
    decreases from.len(),
{
    if from.len() > 0 {
        let rest = votes(pages, from.drop_last());
        lemma_votes_are_counted(pages, from.drop_last());
        assert forall|k: int| 0 <= k < votes(pages, from).len() implies (#[trigger] votes(
            pages,
            from,
        )[k]).1 == link_count(pages, votes(pages, from)[k].0) && votes(pages, from)[k].1 > 0 by {
            if k < rest.len() {
                assert(votes(pages, from)[k] == rest[k]);
            }
        }
    }
}

proof fn lemma_same_filter(
    s: Seq<(Seq<char>, nat)>,
    p: spec_fn((Seq<char>, nat)) -> bool,
    q: spec_fn((Seq<char>, nat)) -> bool,
)
    requires
        forall|k: int| 0 <= k < s.len() ==> p(#[trigger] s[k]) == q(s[k]),
    ensures
        s.filter(p) == s.filter(q),
    decreases s.len(),
{
    reveal(Seq::filter);
    if s.len() > 0 {
        let front = s.drop_last();
        assert forall|k: int| 0 <= k < front.len() implies p(#[trigger] front[k]) == q(front[k]) by {
            assert(front[k] == s[k]);
        }
        lemma_same_filter(front, p, q);
        assert(p(s[s.len() - 1]) == q(s[s.len() - 1]));
    }
}

/// What a plan says of a page: its address, that it is trusted where its domain is known to be good,
/// that it dangles where it has no links, and one vote for each link to it of a page that has links.
/// A voter is given by its place in the plan and votes with the number of its links.
pub proof fn lemma_plan_of_page(
    node: RankNode,
    pages: Seq<LinkedPage>,
    url: Seq<char>,
    lists: DomainLists,
)
    requires
        plans_page(node, pages, url, lists),
    ensures
        node.url@ == url,
        node.trusted <==> (urls::parts_of(url) matches Some((scheme, Some(domain)))
            && lists.quality_of(domain) == DomainQuality::High),
        node.dangling <==> link_count(pages, url) == 0,
        node.inbound.len() == sources(pages, url).filter(
            |u: Seq<char>| link_count(pages, u) > 0,
        ).len(),
        forall|k: int|
            0 <= k < node.inbound.len() ==> {
                let v = #[trigger] node.inbound@[k];
                let voter = sources(pages, url).filter(|u: Seq<char>| link_count(pages, u) > 0)[k];
                v.0 < nodes(pages).len() && nodes(pages)[v.0 as int] == voter && v.1 == link_count(
                    pages,
                    voter,
                )
            },
{
    let from = sources(pages, url);
    let keep = |u: Seq<char>| link_count(pages, u) > 0;
    let names = nodes(pages);
    lemma_every_source_votes(pages, from);
    assert(node_votes(node, names).len() == node.inbound.len());
    assert forall|k: int| 0 <= k < node.inbound.len() implies {
        let v = #[trigger] node.inbound@[k];
        let voter = from.filter(keep)[k];
        v.0 < names.len() && names[v.0 as int] == voter && v.1 == link_count(pages, voter)
    } by {
        let v = node.inbound@[k];
        assert(node_votes(node, names)[k] == (names[v.0 as int], v.1 as nat));
        assert(votes(pages, from)[k] == (from.filter(keep)[k], link_count(
            pages,
            from.filter(keep)[k],
        )));
    }
}

} // verus!
