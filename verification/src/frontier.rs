//! The order in which pages are crawled: breadth first, each page once, up to a depth and a number
//! of pages.

use crate::urls;
use vstd::hash_set::StringHashSet;
use vstd::prelude::*;
use vstd::string::*;

verus! {

/// A URL to crawl and its depth: the number of links between it and a seed.
pub type Stop = (Seq<char>, usize);

/// `url` stands in `order`.
pub open spec fn listed(order: Seq<Stop>, url: Seq<char>) -> bool {
    exists|i: int| 0 <= i < order.len() && (#[trigger] order[i]).0 == url
}

/// `order` with those of `links` behind it that are not listed yet, each once, at depth `depth`.
pub open spec fn extended(order: Seq<Stop>, links: Seq<Seq<char>>, depth: usize) -> Seq<Stop>
    decreases links.len(),
{
    if links.len() == 0 {
        order
    } else {
        let rest = extended(order, links.drop_last(), depth);
        if listed(rest, links.last()) {
            rest
        } else {
            rest.push((links.last(), depth))
        }
    }
}

/// The normal forms of those of `seeds` that are URLs.
pub open spec fn normal_forms(seeds: Seq<Seq<char>>) -> Seq<Seq<char>>
    decreases seeds.len(),
{
    if seeds.len() == 0 {
        seq![]
    } else {
        let rest = normal_forms(seeds.drop_last());
        match urls::normalized(seeds.last()) {
            Some(url) => rest.push(url),
            None => rest,
        }
    }
}

/// The state of a crawl: every URL that was ever queued, in the order in which they are crawled,
/// and how many of them were handed out.
pub struct Frontier {
    order: Vec<(String, usize)>,
    seen: StringHashSet,
    next: usize,
    max_depth: usize,
    max_pages: usize,
}

impl Frontier {
    /// Every URL that was ever queued, in the order in which they are crawled.
    pub closed spec fn order(self) -> Seq<Stop> {
        self.order.deep_view()
    }

    /// The number of pages that were handed out.
    pub closed spec fn handed_out(self) -> int {
        self.next as int
    }

    pub closed spec fn max_depth(self) -> usize {
        self.max_depth
    }

    pub closed spec fn max_pages(self) -> usize {
        self.max_pages
    }

    /// The depth that links of the page that was handed out last are queued at, less one.
    pub open spec fn depth(self) -> usize {
        self.order()[self.handed_out() - 1].1
    }

    /// There is a page to hand out, and the number of pages is not reached.
    pub open spec fn goes_on(self) -> bool {
        self.handed_out() < self.order().len() && self.handed_out() < self.max_pages()
    }

    closed spec fn seen_matches(self) -> bool {
        forall|url: Seq<char>| self.seen@.contains(url) <==> listed(self.order(), url)
    }

    /// What holds of every state of a crawl: no URL is queued twice, none is deeper than allowed,
    /// they stand in the order of their depth, and those that wait are at most one link away from
    /// the page that was handed out last. No more pages are handed out than allowed.
    pub open spec fn wf(self) -> bool {
        &&& self.wf_seen()
        &&& 0 <= self.handed_out() <= self.order().len()
        &&& self.handed_out() <= self.max_pages()
        &&& forall|i: int, j: int|
            0 <= i < j < self.order().len() ==> (#[trigger] self.order()[i]).0 != (
            #[trigger] self.order()[j]).0
        &&& forall|i: int, j: int|
            0 <= i < j < self.order().len() ==> (#[trigger] self.order()[i]).1 <= (
            #[trigger] self.order()[j]).1
        &&& forall|i: int|
            0 <= i < self.order().len() ==> (#[trigger] self.order()[i]).1 <= self.max_depth()
        &&& self.handed_out() == 0 ==> forall|i: int|
            0 <= i < self.order().len() ==> (#[trigger] self.order()[i]).1 == 0
        &&& self.handed_out() > 0 ==> forall|i: int|
            0 <= i < self.order().len() ==> (#[trigger] self.order()[i]).1 <= self.depth() + 1
    }

    /// The set of URLs that were seen is that of the URLs that were queued.
    pub closed spec fn wf_seen(self) -> bool {
        self.seen_matches()
    }

    /// The start of a crawl at `start_urls`. What is no URL is left out.
    pub fn new(start_urls: &Vec<String>, max_depth: usize, max_pages: usize) -> (r: Frontier)
        requires
            forall|i: int|
                0 <= i < start_urls.len() ==> (#[trigger] start_urls@[i])@.len() <= urls::MAX_URL,
        ensures
            r.wf(),
            r.order() == extended(seq![], normal_forms(start_urls.deep_view()), 0),
            r.handed_out() == 0,
            r.max_depth() == max_depth,
            r.max_pages() == max_pages,
    {
        let ghost views = start_urls.deep_view();
        let mut r = Frontier {
            order: Vec::new(),
            seen: StringHashSet::new(),
            next: 0,
            max_depth,
            max_pages,
        };
        assert(r.order() == Seq::<Stop>::empty());
        let mut i: usize = 0;
        while i < start_urls.len()
            invariant
                i <= start_urls.len(),
                views == start_urls.deep_view(),
                forall|i: int|
                    0 <= i < start_urls.len() ==> (#[trigger] start_urls@[i])@.len()
                        <= urls::MAX_URL,
                r.wf(),
                r.handed_out() == 0,
                r.max_depth() == max_depth,
                r.max_pages() == max_pages,
                r.order() == extended(seq![], normal_forms(views.take(i as int)), 0),
            decreases start_urls.len() - i,
        {
            assert(views.take(i + 1).drop_last() == views.take(i as int));
            assert(views.take(i + 1).last() == start_urls@[i as int]@);
            let ghost before = normal_forms(views.take(i as int));
            if let Ok(url) = urls::normalize_url(start_urls[i].as_str()) {
                assert(before.push(url@).drop_last() == before);
                r.enqueue(url, 0);
            }
            i = i + 1;
        }
        assert(views.take(start_urls.len() as int) == views);
        r
    }

    fn enqueue(&mut self, url: String, depth: usize) -> (added: bool)
        requires
            old(self).wf(),
            depth <= old(self).max_depth(),
            old(self).handed_out() == 0 ==> depth == 0,
            old(self).handed_out() > 0 ==> depth == old(self).depth() + 1,
        ensures
            final(self).wf(),
            added == !listed(old(self).order(), url@),
            added ==> final(self).order() == old(self).order().push((url@, depth)),
            !added ==> final(self).order() == old(self).order(),
            final(self).handed_out() == old(self).handed_out(),
            final(self).max_depth() == old(self).max_depth(),
            final(self).max_pages() == old(self).max_pages(),
    {
        let ghost before = self.order();
        if !self.seen.insert(url.clone()) {
            assert(self.order() == before);
            return false;
        }
        let ghost view = url@;
        assert(!listed(before, view));
        assert(forall|i: int| 0 <= i < before.len() ==> (#[trigger] before[i]).0 != view);
        self.order.push((url, depth));
        assert(self.order() == before.push((view, depth)));
        assert forall|u: Seq<char>| self.seen@.contains(u) <==> listed(self.order(), u) by {
            if listed(before, u) {
                let k = choose|k: int| 0 <= k < before.len() && (#[trigger] before[k]).0 == u;
                assert(self.order()[k].0 == u);
            }
            if u == view {
                assert(self.order()[before.len() as int].0 == u);
            }
        }
        true
    }

    /// The next page to crawl and its depth. `None` ends the crawl.
    pub fn next_page(&mut self) -> (r: Option<(String, usize)>)
        requires
            old(self).wf(),
        ensures
            final(self).wf(),
            final(self).order() == old(self).order(),
            final(self).max_depth() == old(self).max_depth(),
            final(self).max_pages() == old(self).max_pages(),
            r is Some <==> old(self).goes_on(),
            r matches Some(page) ==> (page.0@, page.1) == old(self).order()[old(self).handed_out()]
                && final(self).handed_out() == old(self).handed_out() + 1,
            r is None ==> final(self).handed_out() == old(self).handed_out(),
    {
        if self.next >= self.order.len() || self.next >= self.max_pages {
            return None;
        }
        let url = self.order[self.next].0.clone();
        let depth = self.order[self.next].1;
        assert(self.order()[self.next as int] == (url@, depth));
        self.next = self.next + 1;
        Some((url, depth))
    }

    /// Queues the links that were found on the page that was handed out last, one link deeper than
    /// that page, unless it stands at the greatest depth. Returns how many were new.
    pub fn add_links(&mut self, links: &Vec<String>) -> (added: usize)
        requires
            old(self).wf(),
            old(self).handed_out() > 0,
        ensures
            final(self).wf(),
            final(self).handed_out() == old(self).handed_out(),
            final(self).max_depth() == old(self).max_depth(),
            final(self).max_pages() == old(self).max_pages(),
            old(self).depth() < old(self).max_depth() ==> final(self).order() == extended(
                old(self).order(),
                links.deep_view(),
                (old(self).depth() + 1) as usize,
            ),
            old(self).depth() >= old(self).max_depth() ==> final(self).order()
                == old(self).order(),
            added == final(self).order().len() - old(self).order().len(),
    {
        let ghost start = self.order();
        let ghost depth = self.depth();
        let ghost max_depth = self.max_depth();
        let ghost max_pages = self.max_pages();
        let ghost handed_out = self.handed_out();
        let ghost views = links.deep_view();
        let last = self.order[self.next - 1].1;
        assert(self.order()[self.next - 1].1 == last);
        if last >= self.max_depth {
            return 0;
        }
        let mut added: usize = 0;
        let mut i: usize = 0;
        while i < links.len()
            invariant
                i <= links.len(),
                added <= i,
                views == links.deep_view(),
                self.wf(),
                self.handed_out() == handed_out > 0,
                self.max_depth() == max_depth,
                self.max_pages() == max_pages,
                handed_out <= start.len(),
                depth == start[handed_out - 1].1,
                depth == last,
                last < max_depth,
                start.is_prefix_of(self.order()),
                self.order() == extended(start, views.take(i as int), (depth + 1) as usize),
                added == self.order().len() - start.len(),
            decreases links.len() - i,
        {
            assert(views.take(i + 1).drop_last() == views.take(i as int));
            assert(views.take(i + 1).last() == links@[i as int]@);
            let ghost before = self.order();
            assert(before[handed_out - 1] == start[handed_out - 1]);
            if self.enqueue(links[i].clone(), last + 1) {
                added = added + 1;
            }
            assert(start == self.order().subrange(0, start.len() as int));
            i = i + 1;
        }
        assert(views.take(links.len() as int) == views);
        added
    }
}

/// What is queued stays where it is, every link is then queued, and nothing else is.
pub proof fn lemma_links_are_queued(order: Seq<Stop>, links: Seq<Seq<char>>, depth: usize)
    ensures
        order.is_prefix_of(extended(order, links, depth)),
        forall|k: int| 0 <= k < links.len() ==> listed(extended(order, links, depth), #[trigger] links[k]),
        forall|i: int|
            order.len() <= i < extended(order, links, depth).len() ==> links.contains(
                (#[trigger] extended(order, links, depth)[i]).0,
            ) && extended(order, links, depth)[i].1 == depth,
    decreases links.len(),
{
    let now = extended(order, links, depth);
    if links.len() == 0 {
        assert(order == now.subrange(0, order.len() as int));
    } else {
        let fewer = links.drop_last();
        let rest = extended(order, fewer, depth);
        lemma_links_are_queued(order, fewer, depth);
        assert(rest.is_prefix_of(now)) by {
            assert(rest == now.subrange(0, rest.len() as int));
        }
        assert forall|i: int| 0 <= i < rest.len() implies rest[i] == now[i] by {
            assert(rest[i] == now.subrange(0, rest.len() as int)[i]);
        }
        assert(order == now.subrange(0, order.len() as int)) by {
            assert forall|i: int| 0 <= i < order.len() implies order[i] == now[i] by {
                assert(order[i] == rest.subrange(0, order.len() as int)[i]);
                assert(rest[i] == now[i]);
            }
        }
        assert forall|k: int| 0 <= k < links.len() implies listed(now, #[trigger] links[k]) by {
            if k < fewer.len() {
                assert(links[k] == fewer[k]);
                assert(listed(rest, fewer[k]));
                let i = choose|i: int| 0 <= i < rest.len() && (#[trigger] rest[i]).0 == links[k];
                assert(now[i].0 == links[k]);
            } else if !listed(rest, links[k]) {
                assert(now[rest.len() as int].0 == links[k]);
            }
        }
        assert forall|i: int| order.len() <= i < now.len() implies links.contains(
            (#[trigger] now[i]).0,
        ) && now[i].1 == depth by {
            if i < rest.len() {
                assert(now[i] == rest[i]);
                assert(fewer.contains(rest[i].0));
                let k = choose|k: int| 0 <= k < fewer.len() && fewer[k] == rest[i].0;
                assert(links[k] == now[i].0);
            } else {
                assert(links[links.len() - 1] == now[i].0);
            }
        }
    }
}

/// In no state of a crawl does a URL stand twice among the pages handed out and those that wait: no
/// page is crawled twice.
pub proof fn lemma_no_page_twice(crawl: Frontier, i: int, j: int)
    requires
        crawl.wf(),
        0 <= i < crawl.order().len(),
        0 <= j < crawl.order().len(),
        crawl.order()[i].0 == crawl.order()[j].0,
    ensures
        i == j,
{
    if i < j {
        assert(crawl.order()[i].0 != crawl.order()[j].0);
    } else if j < i {
        assert(crawl.order()[j].0 != crawl.order()[i].0);
    }
}

/// A crawl goes breadth first: no page is handed out before one that is fewer links away.
pub proof fn lemma_breadth_first(crawl: Frontier, i: int, j: int)
    requires
        crawl.wf(),
        0 <= i <= j < crawl.order().len(),
    ensures
        crawl.order()[i].1 <= crawl.order()[j].1,
{
}

/// A crawl keeps its limits: no more pages are handed out than allowed, and none is deeper.
pub proof fn lemma_limits_kept(crawl: Frontier)
    requires
        crawl.wf(),
    ensures
        crawl.handed_out() <= crawl.max_pages(),
        forall|i: int|
            0 <= i < crawl.handed_out() ==> (#[trigger] crawl.order()[i]).1 <= crawl.max_depth(),
{
}

/// The order of a crawl that begins with `start` after its first `n` pages were handed out, where
/// `links` gives the links that each page led to. A page that could not be fetched led to none.
pub open spec fn explored(
    start: Seq<Stop>,
    links: spec_fn(Seq<char>) -> Seq<Seq<char>>,
    max_depth: usize,
    n: nat,
) -> Seq<Stop>
    decreases n,
{
    if n == 0 {
        start
    } else {
        let order = explored(start, links, max_depth, (n - 1) as nat);
        if n <= order.len() && order[n - 1].1 < max_depth {
            extended(order, links(order[n - 1].0), (order[n - 1].1 + 1) as usize)
        } else {
            order
        }
    }
}

/// `path` leads from a seed, link by link, to its last URL.
pub open spec fn leads_on(
    path: Seq<Seq<char>>,
    seeds: Seq<Seq<char>>,
    links: spec_fn(Seq<char>) -> Seq<Seq<char>>,
) -> bool {
    &&& path.len() > 0
    &&& seeds.contains(path[0])
    &&& forall|i: int| 0 < i < path.len() ==> links(path[i - 1]).contains(#[trigger] path[i])
}

/// `url` is reached from a seed over at most `depth` links.
pub open spec fn reachable(
    url: Seq<char>,
    seeds: Seq<Seq<char>>,
    links: spec_fn(Seq<char>) -> Seq<Seq<char>>,
    depth: usize,
) -> bool {
    exists|path: Seq<Seq<char>>| #[trigger]
        leads_on(path, seeds, links) && path.last() == url && path.len() <= depth + 1
}

/// A crawl goes on as `explored` says: where that gives its order before a page is handed out, it
/// gives the order again after the links of that page were added.
pub proof fn lemma_crawl_explores(
    before: Frontier,
    after: Frontier,
    start: Seq<Stop>,
    links: spec_fn(Seq<char>) -> Seq<Seq<char>>,
)
    requires
        before.wf(),
        before.handed_out() < before.order().len(),
        before.order() == explored(start, links, before.max_depth(), before.handed_out() as nat),
        after.handed_out() == before.handed_out() + 1,
        after.max_depth() == before.max_depth(),
        after.order() == if before.order()[before.handed_out()].1 < before.max_depth() {
            extended(
                before.order(),
                links(before.order()[before.handed_out()].0),
                (before.order()[before.handed_out()].1 + 1) as usize,
            )
        } else {
            before.order()
        },
    ensures
        after.order() == explored(start, links, after.max_depth(), after.handed_out() as nat),
{
}

/// The entries of `order` are in the order of their depth, none is deeper than allowed, and none is
/// more than one link deeper than the one before position `n`; before the first all are seeds.
spec fn in_layers(order: Seq<Stop>, max_depth: usize, n: nat) -> bool {
    &&& n <= order.len()
    &&& forall|i: int, j: int|
        0 <= i < j < order.len() ==> (#[trigger] order[i]).1 <= (#[trigger] order[j]).1
    &&& forall|i: int| 0 <= i < order.len() ==> (#[trigger] order[i]).1 <= max_depth
    &&& n == 0 ==> forall|i: int| 0 <= i < order.len() ==> (#[trigger] order[i]).1 == 0
    &&& n > 0 ==> forall|i: int|
        0 <= i < order.len() ==> (#[trigger] order[i]).1 <= order[n - 1].1 + 1
}

/// Every entry of `order` is reached over as many links as its depth says.
spec fn all_reached(
    order: Seq<Stop>,
    seeds: Seq<Seq<char>>,
    links: spec_fn(Seq<char>) -> Seq<Seq<char>>,
) -> bool {
    forall|i: int|
        0 <= i < order.len() ==> reachable(
            (#[trigger] order[i]).0,
            seeds,
            links,
            order[i].1,
        )
}

proof fn lemma_start_is_reached(
    seeds: Seq<Seq<char>>,
    links: spec_fn(Seq<char>) -> Seq<Seq<char>>,
    max_depth: usize,
)
    ensures
        in_layers(extended(seq![], seeds, 0), max_depth, 0),
        all_reached(extended(seq![], seeds, 0), seeds, links),
{
    let order = extended(seq![], seeds, 0);
    lemma_links_are_queued(seq![], seeds, 0);
    assert forall|i: int| 0 <= i < order.len() implies reachable(
        (#[trigger] order[i]).0,
        seeds,
        links,
        order[i].1,
    ) by {
        let path = seq![order[i].0];
        assert(leads_on(path, seeds, links));
    }
}

proof fn lemma_one_page_more(
    order: Seq<Stop>,
    seeds: Seq<Seq<char>>,
    links: spec_fn(Seq<char>) -> Seq<Seq<char>>,
    max_depth: usize,
    n: nat,
)
    requires
        n < order.len(),
        in_layers(order, max_depth, n),
        all_reached(order, seeds, links),
        order[n as int].1 < max_depth,
    ensures
        in_layers(
            extended(order, links(order[n as int].0), (order[n as int].1 + 1) as usize),
            max_depth,
            n + 1,
        ),
        all_reached(
            extended(order, links(order[n as int].0), (order[n as int].1 + 1) as usize),
            seeds,
            links,
        ),
{
    let page = order[n as int];
    let depth = (page.1 + 1) as usize;
    let found = links(page.0);
    let now = extended(order, found, depth);
    lemma_links_are_queued(order, found, depth);
    assert forall|i: int| 0 <= i < order.len() implies now[i] == order[i] by {
        assert(order[i] == now.subrange(0, order.len() as int)[i]);
    }
    assert(forall|i: int| 0 <= i < order.len() ==> (#[trigger] order[i]).1 <= depth);
    assert forall|i: int, j: int| 0 <= i < j < now.len() implies (#[trigger] now[i]).1 <= (
    #[trigger] now[j]).1 by {
        if j < order.len() {
            assert(order[i].1 <= order[j].1);
        } else if i < order.len() {
            assert(order[i].1 <= depth);
        }
    }
    assert forall|i: int| 0 <= i < now.len() implies (#[trigger] now[i]).1 <= depth by {
        if i < order.len() {
            assert(order[i].1 <= depth);
        }
    }
    assert forall|i: int| 0 <= i < now.len() implies reachable(
        (#[trigger] now[i]).0,
        seeds,
        links,
        now[i].1,
    ) by {
        if i < order.len() {
            assert(now[i] == order[i]);
            assert(reachable(order[i].0, seeds, links, order[i].1));
        } else {
            assert(reachable(page.0, seeds, links, page.1));
            let path = choose|path: Seq<Seq<char>>| #[trigger]
                leads_on(path, seeds, links) && path.last() == page.0 && path.len() <= page.1 + 1;
            let longer = path.push(now[i].0);
            assert(found.contains(now[i].0));
            assert forall|k: int| 0 < k < longer.len() implies links(longer[k - 1]).contains(
                #[trigger] longer[k],
            ) by {
                if k < path.len() {
                    assert(longer[k] == path[k]);
                    assert(longer[k - 1] == path[k - 1]);
                } else {
                    assert(longer[k - 1] == path.last());
                }
            }
            assert(longer[0] == path[0]);
            assert(leads_on(longer, seeds, links));
        }
    }
}

proof fn lemma_explored(
    seeds: Seq<Seq<char>>,
    links: spec_fn(Seq<char>) -> Seq<Seq<char>>,
    max_depth: usize,
    n: nat,
)
    requires
        n <= explored(extended(seq![], seeds, 0), links, max_depth, n).len(),
    ensures
        in_layers(explored(extended(seq![], seeds, 0), links, max_depth, n), max_depth, n),
        all_reached(explored(extended(seq![], seeds, 0), links, max_depth, n), seeds, links),
        n > 0 ==> n <= explored(
            extended(seq![], seeds, 0),
            links,
            max_depth,
            (n - 1) as nat,
        ).len(),
    decreases n,
{
    let start = extended(seq![], seeds, 0);
    if n == 0 {
        lemma_start_is_reached(seeds, links, max_depth);
    } else {
        let m = (n - 1) as nat;
        let order = explored(start, links, max_depth, m);
        if n > order.len() {
            assert(explored(start, links, max_depth, n) == order);
        }
        lemma_explored(seeds, links, max_depth, m);
        if order[m as int].1 < max_depth {
            lemma_one_page_more(order, seeds, links, max_depth, m);
        } else {
            assert forall|i: int| 0 <= i < order.len() implies (#[trigger] order[i]).1
                <= order[m as int].1 + 1 by {}
        }
    }
}

proof fn lemma_order_grows(
    start: Seq<Stop>,
    links: spec_fn(Seq<char>) -> Seq<Seq<char>>,
    max_depth: usize,
    m: nat,
    n: nat,
)
    requires
        m <= n,
    ensures
        explored(start, links, max_depth, m).is_prefix_of(explored(start, links, max_depth, n)),
    decreases n - m,
{
    let first = explored(start, links, max_depth, m);
    let last = explored(start, links, max_depth, n);
    if m == n {
        assert(first == last.subrange(0, first.len() as int));
    } else {
        let less = (n - 1) as nat;
        let middle = explored(start, links, max_depth, less);
        lemma_order_grows(start, links, max_depth, m, less);
        if n <= middle.len() && middle[n - 1].1 < max_depth {
            lemma_links_are_queued(
                middle,
                links(middle[n - 1].0),
                (middle[n - 1].1 + 1) as usize,
            );
        } else {
            assert(middle == last.subrange(0, middle.len() as int));
        }
        assert forall|i: int| 0 <= i < first.len() implies first[i] == last[i] by {
            assert(first[i] == middle.subrange(0, first.len() as int)[i]);
            assert(middle[i] == last.subrange(0, middle.len() as int)[i]);
        }
        assert(first == last.subrange(0, first.len() as int));
    }
}

/// `url` stands in `order` at no more than `depth` links.
spec fn listed_within(order: Seq<Stop>, url: Seq<char>, depth: int) -> bool {
    exists|i: int| 0 <= i < order.len() && (#[trigger] order[i]).0 == url && order[i].1 <= depth
}

proof fn lemma_path_is_listed(
    seeds: Seq<Seq<char>>,
    links: spec_fn(Seq<char>) -> Seq<Seq<char>>,
    max_depth: usize,
    n: nat,
    path: Seq<Seq<char>>,
    k: int,
)
    requires
        n == explored(extended(seq![], seeds, 0), links, max_depth, n).len(),
        leads_on(path, seeds, links),
        path.len() <= max_depth + 1,
        0 <= k < path.len(),
    ensures
        listed_within(explored(extended(seq![], seeds, 0), links, max_depth, n), path[k], k),
    decreases k,
{
    let start = extended(seq![], seeds, 0);
    let order = explored(start, links, max_depth, n);
    if k == 0 {
        lemma_links_are_queued(seq![], seeds, 0);
        let s = choose|s: int| 0 <= s < seeds.len() && seeds[s] == path[0];
        assert(listed(start, seeds[s]));
        let i = choose|i: int| 0 <= i < start.len() && (#[trigger] start[i]).0 == path[0];
        lemma_order_grows(start, links, max_depth, 0, n);
        assert(start[i] == order.subrange(0, start.len() as int)[i]);
        assert(start[i].1 == 0);
        assert(order[i].0 == path[0]);
    } else {
        lemma_path_is_listed(seeds, links, max_depth, n, path, k - 1);
        let p = choose|p: int|
            0 <= p < order.len() && (#[trigger] order[p]).0 == path[k - 1] && order[p].1 <= k - 1;
        let m = p as nat;
        let next = (p + 1) as nat;
        let then = explored(start, links, max_depth, m);
        let later = explored(start, links, max_depth, next);
        lemma_order_grows(start, links, max_depth, m, n);
        lemma_order_grows(start, links, max_depth, next, n);
        lemma_handed_out_was_listed(seeds, links, max_depth, next, n);
        lemma_explored(seeds, links, max_depth, next);
        assert(then[p] == order.subrange(0, then.len() as int)[p]);
        let depth = (then[p].1 + 1) as usize;
        let found = links(then[p].0);
        assert(links(path[k - 1]).contains(path[k]));
        lemma_links_are_queued(then, found, depth);
        assert(later == extended(then, found, depth));
        let f = choose|f: int| 0 <= f < found.len() && found[f] == path[k];
        assert(listed(later, found[f]));
        let i = choose|i: int| 0 <= i < later.len() && (#[trigger] later[i]).0 == path[k];
        assert(later[i].1 <= later[next - 1].1 + 1);
        assert(later[p] == order.subrange(0, later.len() as int)[p]);
        assert(later[i] == order.subrange(0, later.len() as int)[i]);
        assert(order[i].0 == path[k]);
    }
}

proof fn lemma_handed_out_was_listed(
    seeds: Seq<Seq<char>>,
    links: spec_fn(Seq<char>) -> Seq<Seq<char>>,
    max_depth: usize,
    m: nat,
    n: nat,
)
    requires
        m <= n,
        n <= explored(extended(seq![], seeds, 0), links, max_depth, n).len(),
    ensures
        m <= explored(extended(seq![], seeds, 0), links, max_depth, m).len(),
    decreases n - m,
{
    if m < n {
        lemma_explored(seeds, links, max_depth, n);
        lemma_handed_out_was_listed(seeds, links, max_depth, m, (n - 1) as nat);
    }
}

proof fn lemma_listed_are_reachable(
    seeds: Seq<Seq<char>>,
    links: spec_fn(Seq<char>) -> Seq<Seq<char>>,
    max_depth: usize,
    n: nat,
    url: Seq<char>,
)
    requires
        n <= explored(extended(seq![], seeds, 0), links, max_depth, n).len(),
        listed(explored(extended(seq![], seeds, 0), links, max_depth, n), url),
    ensures
        reachable(url, seeds, links, max_depth),
{
    let order = explored(extended(seq![], seeds, 0), links, max_depth, n);
    lemma_explored(seeds, links, max_depth, n);
    let i = choose|i: int| 0 <= i < order.len() && (#[trigger] order[i]).0 == url;
    assert(reachable(order[i].0, seeds, links, order[i].1));
    let path = choose|path: Seq<Seq<char>>| #[trigger]
        leads_on(path, seeds, links) && path.last() == url && path.len() <= order[i].1 + 1;
    assert(leads_on(path, seeds, links));
    assert(order[i].1 <= max_depth);
}

proof fn lemma_reachable_are_listed(
    seeds: Seq<Seq<char>>,
    links: spec_fn(Seq<char>) -> Seq<Seq<char>>,
    max_depth: usize,
    n: nat,
    url: Seq<char>,
)
    requires
        n == explored(extended(seq![], seeds, 0), links, max_depth, n).len(),
        reachable(url, seeds, links, max_depth),
    ensures
        listed(explored(extended(seq![], seeds, 0), links, max_depth, n), url),
{
    let order = explored(extended(seq![], seeds, 0), links, max_depth, n);
    let path = choose|path: Seq<Seq<char>>| #[trigger]
        leads_on(path, seeds, links) && path.last() == url && path.len() <= max_depth + 1;
    lemma_path_is_listed(seeds, links, max_depth, n, path, path.len() - 1);
    let i = choose|i: int|
        0 <= i < order.len() && (#[trigger] order[i]).0 == path[path.len() - 1] && order[i].1
            <= path.len() - 1;
    assert(order[i].0 == url);
}

/// A crawl hands out only pages that are reached from its seeds over as many links as it may
/// follow. One that ends before its limit of pages has handed out exactly these: none waits, and
/// none was left out.
pub proof fn lemma_crawl_is_complete(
    crawl: Frontier,
    seeds: Seq<Seq<char>>,
    links: spec_fn(Seq<char>) -> Seq<Seq<char>>,
)
    requires
        crawl.wf(),
        crawl.order() == explored(
            extended(seq![], seeds, 0),
            links,
            crawl.max_depth(),
            crawl.handed_out() as nat,
        ),
    ensures
        forall|url: Seq<char>|
            listed(crawl.order().take(crawl.handed_out()), url) ==> #[trigger] reachable(
                url,
                seeds,
                links,
                crawl.max_depth(),
            ),
        !crawl.goes_on() && crawl.handed_out() < crawl.max_pages() ==> forall|url: Seq<char>|
            listed(crawl.order().take(crawl.handed_out()), url) <==> #[trigger] reachable(
                url,
                seeds,
                links,
                crawl.max_depth(),
            ),
{
    let order = crawl.order();
    let n = crawl.handed_out() as nat;
    let out = order.take(n as int);
    assert forall|url: Seq<char>| listed(out, url) implies #[trigger] reachable(
        url,
        seeds,
        links,
        crawl.max_depth(),
    ) by {
        let i = choose|i: int| 0 <= i < out.len() && (#[trigger] out[i]).0 == url;
        assert(order[i].0 == url);
        lemma_listed_are_reachable(seeds, links, crawl.max_depth(), n, url);
    }
    if !crawl.goes_on() && crawl.handed_out() < crawl.max_pages() {
        assert(out == order);
        assert forall|url: Seq<char>| #[trigger]
            reachable(url, seeds, links, crawl.max_depth()) implies listed(out, url) by {
            lemma_reachable_are_listed(seeds, links, crawl.max_depth(), n, url);
        }
    }
}

/// The seeds of a crawl are the normal forms of all start URLs that have one, in their order.
pub proof fn lemma_normal_forms(starts: Seq<Seq<char>>)
    ensures
        normal_forms(starts) == starts.filter(
            |s: Seq<char>| urls::normalized(s) is Some,
        ).map_values(|s: Seq<char>| urls::normalized(s)->0),
    decreases starts.len(),
{
    reveal(Seq::filter);
    let keep = |s: Seq<char>| urls::normalized(s) is Some;
    let form = |s: Seq<char>| urls::normalized(s)->0;
    if starts.len() == 0 {
        assert(normal_forms(starts) == starts.filter(keep).map_values(form));
    } else {
        let front = starts.drop_last();
        lemma_normal_forms(front);
        if keep(starts.last()) {
            assert(front.filter(keep).push(starts.last()).map_values(form) == front.filter(
                keep,
            ).map_values(form).push(form(starts.last())));
        }
    }
}

/// A crawl begins with the normal form of every start URL that has one, each once and no link away,
/// and with nothing else.
pub proof fn lemma_start_urls_are_queued(starts: Seq<Seq<char>>, order: Seq<Stop>)
    requires
        order == extended(seq![], normal_forms(starts), 0),
    ensures
        forall|k: int|
            #![trigger starts[k]]
            0 <= k < starts.len() && urls::normalized(starts[k]) is Some ==> exists|i: int|
                0 <= i < order.len() && #[trigger] order[i] == (
                    urls::normalized(starts[k])->0,
                    0usize,
                ),
        forall|i: int|
            #![trigger order[i]]
            0 <= i < order.len() ==> order[i].1 == 0 && exists|k: int|
                0 <= k < starts.len() && urls::normalized(#[trigger] starts[k]) == Some(order[i].0),
        forall|i: int, j: int|
            0 <= i < order.len() && 0 <= j < order.len() && (#[trigger] order[i]).0 == (
            #[trigger] order[j]).0 ==> i == j,
{
    let keep = |s: Seq<char>| urls::normalized(s) is Some;
    let seeds = normal_forms(starts);
    let kept = starts.filter(keep);
    lemma_normal_forms(starts);
    lemma_links_are_queued(seq![], seeds, 0);
    lemma_queued_once(seq![], seeds, 0);
    assert forall|k: int|
        #![trigger starts[k]]
        0 <= k < starts.len() && urls::normalized(starts[k]) is Some implies exists|i: int|
        0 <= i < order.len() && #[trigger] order[i] == (urls::normalized(starts[k])->0, 0usize) by {
        starts.lemma_filter_contains(keep, k);
        let m = choose|m: int| 0 <= m < kept.len() && kept[m] == starts[k];
        assert(seeds[m] == urls::normalized(starts[k])->0);
        assert(listed(order, seeds[m]));
        let i = choose|i: int| 0 <= i < order.len() && (#[trigger] order[i]).0 == seeds[m];
        assert(order[i].1 == 0);
        assert(order[i] == (urls::normalized(starts[k])->0, 0usize));
    }
    assert forall|i: int|
        #![trigger order[i]]
        0 <= i < order.len() implies order[i].1 == 0 && exists|k: int|
        0 <= k < starts.len() && urls::normalized(#[trigger] starts[k]) == Some(order[i].0) by {
        assert(seeds.contains(order[i].0));
        let m = choose|m: int| 0 <= m < seeds.len() && seeds[m] == order[i].0;
        starts.lemma_filter_pred(keep, m);
        assert(kept.contains(kept[m]));
        starts.lemma_filter_contains_rev(keep, kept[m]);
        let k = choose|k: int| 0 <= k < starts.len() && starts[k] == kept[m];
        assert(urls::normalized(starts[k]) == Some(order[i].0));
    }
}

proof fn lemma_queued_once(order: Seq<Stop>, links: Seq<Seq<char>>, depth: usize)
    requires
        forall|i: int, j: int|
            0 <= i < order.len() && 0 <= j < order.len() && (#[trigger] order[i]).0 == (
            #[trigger] order[j]).0 ==> i == j,
    ensures
        forall|i: int, j: int|
            0 <= i < extended(order, links, depth).len() && 0 <= j < extended(
                order,
                links,
                depth,
            ).len() && (#[trigger] extended(order, links, depth)[i]).0 == (#[trigger] extended(
                order,
                links,
                depth,
            )[j]).0 ==> i == j,
    decreases links.len(),
{
    if links.len() > 0 {
        let rest = extended(order, links.drop_last(), depth);
        let now = extended(order, links, depth);
        lemma_queued_once(order, links.drop_last(), depth);
        assert forall|i: int, j: int|
            0 <= i < now.len() && 0 <= j < now.len() && (#[trigger] now[i]).0 == (
            #[trigger] now[j]).0 implies i == j by {
            assert(i < rest.len() ==> rest[i] == now[i]);
            assert(j < rest.len() ==> rest[j] == now[j]);
        }
    }
}

/// Links are queued in the order in which they stand on a page: of two that are new, the one that
/// is queued first stands before every mention of the other.
pub proof fn lemma_links_queued_in_order(
    order: Seq<Stop>,
    links: Seq<Seq<char>>,
    depth: usize,
    i: int,
    j: int,
    m: int,
)
    requires
        order.len() <= i < j < extended(order, links, depth).len(),
        0 <= m < links.len(),
        links[m] == extended(order, links, depth)[j].0,
    ensures
        exists|k: int| 0 <= k < m && #[trigger] links[k] == extended(order, links, depth)[i].0,
    decreases links.len(),
{
    let fewer = links.drop_last();
    let rest = extended(order, fewer, depth);
    let now = extended(order, links, depth);
    lemma_links_are_queued(order, fewer, depth);
    assert(now[i] == rest[i]);
    assert(fewer.contains(rest[i].0));
    let e = choose|e: int| 0 <= e < fewer.len() && fewer[e] == rest[i].0;
    if m < fewer.len() {
        assert(fewer[m] == now[j].0);
        assert(listed(rest, fewer[m]));
        if j < rest.len() {
            lemma_links_queued_in_order(order, fewer, depth, i, j, m);
            let k = choose|k: int| 0 <= k < m && #[trigger] fewer[k] == rest[i].0;
            assert(links[k] == now[i].0);
        } else {
            assert(!listed(rest, links.last()));
        }
    } else {
        assert(links[e] == now[i].0);
    }
}

/// A crawl goes on as long as a page waits and fewer pages were handed out than allowed, and the
/// links of a page are one link deeper than the page that was handed out last.
pub proof fn lemma_crawl_goes_on(crawl: Frontier)
    requires
        crawl.wf(),
    ensures
        crawl.goes_on() <==> crawl.handed_out() != crawl.order().len() && crawl.handed_out()
            != crawl.max_pages(),
        crawl.handed_out() > 0 ==> crawl.depth() == crawl.order()[crawl.handed_out() - 1].1,
        crawl.handed_out() > 0 ==> forall|i: int|
            crawl.handed_out() <= i < crawl.order().len() ==> crawl.depth() <= (
            #[trigger] crawl.order()[i]).1 <= crawl.depth() + 1,
{
}

} // verus!
