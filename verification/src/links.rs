//! The links of a page.

use crate::html;
use crate::text;
use crate::urls;
use vstd::prelude::*;
use vstd::string::*;
use vstd::utf8::*;

verus! {

/// A link as it was found: its URL in normal form, the scheme and the domain of that URL.
pub struct FoundLink {
    pub url: String,
    pub scheme: String,
    pub domain: Option<String>,
}

/// A link as mathematics.
#[verifier::ext_equal]
pub struct LinkView {
    pub url: Seq<char>,
    pub scheme: Seq<char>,
    pub domain: Option<Seq<char>>,
}

impl View for FoundLink {
    type V = LinkView;

    open spec fn view(&self) -> LinkView {
        LinkView { url: self.url@, scheme: self.scheme@, domain: self.domain.deep_view() }
    }
}

impl LinkView {
    /// The link can be fetched.
    pub open spec fn fetchable(self) -> bool {
        self.scheme == "http"@ || self.scheme == "https"@
    }

    /// The link leads to the site of the domain `base`.
    pub open spec fn stays_on(self, base: Option<Seq<char>>) -> bool {
        match (base, self.domain) {
            (Some(b), Some(d)) => urls::same_site(d, b),
            _ => false,
        }
    }
}

/// The links of a page that can be followed: all of them, and those that stay on its site.
pub struct ExtractedLinks {
    pub same_domain: Vec<String>,
    pub all: Vec<String>,
}

/// The views of a sequence of links.
pub open spec fn link_views(links: Seq<FoundLink>) -> Seq<LinkView> {
    links.map_values(|link: FoundLink| link@)
}

/// The URLs of those links that can be fetched.
pub open spec fn fetchable_urls(links: Seq<LinkView>) -> Seq<Seq<char>>
    decreases links.len(),
{
    if links.len() == 0 {
        seq![]
    } else {
        let rest = fetchable_urls(links.drop_last());
        if links.last().fetchable() {
            rest.push(links.last().url)
        } else {
            rest
        }
    }
}

/// The URLs of those links that can be fetched and stay on the site of the domain `base`.
pub open spec fn site_urls(links: Seq<LinkView>, base: Option<Seq<char>>) -> Seq<Seq<char>>
    decreases links.len(),
{
    if links.len() == 0 {
        seq![]
    } else {
        let rest = site_urls(links.drop_last(), base);
        if links.last().fetchable() && links.last().stays_on(base) {
            rest.push(links.last().url)
        } else {
            rest
        }
    }
}

/// The link that is at `url`. A URL of more characters than can be counted makes none.
pub open spec fn link_to(url: Seq<char>) -> Option<LinkView> {
    if url.len() > urls::MAX_URL {
        None
    } else {
        match urls::parts_of(url) {
            Some((scheme, domain)) => Some(LinkView { url, scheme, domain }),
            None => None,
        }
    }
}

/// The link that the reference `href` makes on the page `page_url`: the one at the normal form of
/// the URL that it stands for there.
pub open spec fn link_at(page_url: Seq<char>, href: Option<Seq<char>>) -> Option<LinkView> {
    match href {
        Some(reference) => match urls::resolved(page_url, reference) {
            Some(absolute) => if absolute.len() > urls::MAX_URL {
                None
            } else {
                match urls::normalized(absolute) {
                    Some(url) => link_to(url),
                    None => None,
                }
            },
            None => None,
        },
        None => None,
    }
}

/// The links that the references `rows` make on the page `page_url`.
pub open spec fn links_at(page_url: Seq<char>, rows: Seq<Seq<Option<Seq<char>>>>) -> Seq<LinkView>
    decreases rows.len(),
{
    if rows.len() == 0 {
        seq![]
    } else {
        let rest = links_at(page_url, rows.drop_last());
        match link_at(page_url, rows.last()[0]) {
            Some(link) => rest.push(link),
            None => rest,
        }
    }
}

/// The links on the page `page_url` whose text is `source`.
pub open spec fn links_on_page(page_url: Seq<char>, source: Seq<char>) -> Seq<LinkView> {
    match html::selected_attributes(html::parsed_page(source), "a[href]"@, seq!["href"@]) {
        Some(rows) => links_at(page_url, rows),
        None => seq![],
    }
}

/// The domain of `url`.
pub open spec fn domain_of(url: Seq<char>) -> Option<Seq<char>> {
    match urls::parts_of(url) {
        Some((_, domain)) => domain,
        None => None,
    }
}

/// What can be followed on the page `page_url` whose text is `source`: all links, and those that
/// stay on the site of the page. A page that is at no absolute URL has none.
pub open spec fn followed(page_url: Seq<char>, source: Seq<char>) -> (Seq<Seq<char>>, Seq<Seq<char>>) {
    if urls::parts_of(page_url) is None {
        (seq![], seq![])
    } else {
        let links = links_on_page(page_url, source);
        (fetchable_urls(links), site_urls(links, domain_of(page_url)))
    }
}

fn stays_on_site(domain: &Option<String>, base: &Option<String>) -> (r: bool)
    ensures
        r == match (base.deep_view(), domain.deep_view()) {
            (Some(b), Some(d)) => urls::same_site(d, b),
            _ => false,
        },
{
    match base {
        Some(b) => match domain {
            Some(d) => urls::is_same_site(d.as_str(), b.as_str()),
            None => false,
        },
        None => false,
    }
}

/// The links that can be followed from a page of the domain `base`: those that can be fetched, and
/// of these the ones that stay on its site, in the order in which they were found.
pub fn sort_links(base: &Option<String>, found: Vec<FoundLink>) -> (r: ExtractedLinks)
    ensures
        r.all.deep_view() == fetchable_urls(link_views(found@)),
        r.same_domain.deep_view() == site_urls(link_views(found@), base.deep_view()),
{
    let ghost views = link_views(found@);
    let mut same_domain: Vec<String> = Vec::new();
    let mut all: Vec<String> = Vec::new();
    let mut i: usize = 0;
    while i < found.len()
        invariant
            i <= found.len(),
            views == link_views(found@),
            all.deep_view() == fetchable_urls(views.take(i as int)),
            same_domain.deep_view() == site_urls(views.take(i as int), base.deep_view()),
        decreases found.len() - i,
    {
        let link = &found[i];
        let ghost all_before = all.deep_view();
        let ghost same_before = same_domain.deep_view();
        assert(views.take(i + 1).drop_last() == views.take(i as int));
        assert(views.take(i + 1).last() == link@);
        if text::same_text(link.scheme.as_str(), "http") || text::same_text(
            link.scheme.as_str(),
            "https",
        ) {
            all.push(link.url.clone());
            assert(all.deep_view() == all_before.push(link.url@));
            if stays_on_site(&link.domain, base) {
                same_domain.push(link.url.clone());
                assert(same_domain.deep_view() == same_before.push(link.url@));
            }
        }
        i = i + 1;
    }
    assert(views.take(found.len() as int) == views);
    ExtractedLinks { same_domain, all }
}

/// No link of `links` has a fragment.
pub open spec fn without_fragments(links: Seq<LinkView>) -> bool {
    forall|i: int| 0 <= i < links.len() ==> !(#[trigger] links[i]).url.contains('#')
}

proof fn lemma_listed_without_fragments(links: Seq<LinkView>, base: Option<Seq<char>>)
    requires
        without_fragments(links),
    ensures
        forall|i: int|
            0 <= i < fetchable_urls(links).len() ==> !(#[trigger] fetchable_urls(
                links,
            )[i]).contains('#'),
        forall|i: int|
            0 <= i < site_urls(links, base).len() ==> !(#[trigger] site_urls(
                links,
                base,
            )[i]).contains('#'),
    decreases links.len(),
{
    if links.len() > 0 {
        let front = links.drop_last();
        assert forall|i: int| 0 <= i < front.len() implies !(#[trigger] front[i]).url.contains(
            '#',
        ) by {
            assert(front[i] == links[i]);
        }
        lemma_listed_without_fragments(front, base);
        assert(!links[links.len() - 1].url.contains('#'));
        assert forall|i: int| 0 <= i < fetchable_urls(links).len() implies !(
        #[trigger] fetchable_urls(links)[i]).contains('#') by {
            if i < fetchable_urls(front).len() {
                assert(fetchable_urls(links)[i] == fetchable_urls(front)[i]);
            }
        }
        assert forall|i: int| 0 <= i < site_urls(links, base).len() implies !(#[trigger] site_urls(
            links,
            base,
        )[i]).contains('#') by {
            if i < site_urls(front, base).len() {
                assert(site_urls(links, base)[i] == site_urls(front, base)[i]);
            }
        }
    }
}

fn find_link(page_url: &str, href: &Option<String>) -> (r: Option<FoundLink>)
    requires
        page_url@.len() <= urls::MAX_URL,
        href.deep_view() matches Some(v) ==> v.len() <= urls::MAX_URL,
    ensures
        r matches Some(link) ==> !link.url@.contains('#'),
        r matches Some(link) ==> link_at(page_url@, href.deep_view()) == Some(link@),
        r is None ==> link_at(page_url@, href.deep_view()) is None,
{
    let reference = match href {
        Some(reference) => reference.as_str(),
        None => return None,
    };
    let absolute = match urls::resolve(page_url, reference) {
        Some(absolute) => absolute,
        None => return None,
    };
    if !urls::url_fits(absolute.as_str()) {
        return None;
    }
    let url = match urls::normalize_url(absolute.as_str()) {
        Ok(url) => url,
        Err(_) => return None,
    };
    if !urls::url_fits(url.as_str()) {
        return None;
    }
    match urls::url_parts(url.as_str()) {
        Some((scheme, domain)) => Some(FoundLink { url, scheme, domain }),
        None => None,
    }
}

fn find_links(page_url: &str, rows: &Vec<Vec<Option<String>>>) -> (r: Vec<FoundLink>)
    requires
        page_url@.len() <= urls::MAX_URL,
        forall|i: int| 0 <= i < rows.len() ==> (#[trigger] rows@[i]).len() == 1,
        html::values_within(rows.deep_view(), urls::MAX_URL as nat),
    ensures
        link_views(r@) == links_at(page_url@, rows.deep_view()),
        without_fragments(link_views(r@)),
{
    let ghost views = rows.deep_view();
    let mut r: Vec<FoundLink> = Vec::new();
    assert(link_views(r@) == Seq::<LinkView>::empty());
    let mut i: usize = 0;
    while i < rows.len()
        invariant
            i <= rows.len(),
            views == rows.deep_view(),
            page_url@.len() <= urls::MAX_URL,
            forall|j: int| 0 <= j < rows.len() ==> (#[trigger] rows@[j]).len() == 1,
            html::values_within(views, urls::MAX_URL as nat),
            without_fragments(link_views(r@)),
            link_views(r@) == links_at(page_url@, views.take(i as int)),
        decreases rows.len() - i,
    {
        let row = &rows[i];
        let ghost before = r@;
        assert(views.take(i + 1).drop_last() == views.take(i as int));
        assert(views.take(i + 1).last() == row.deep_view());
        assert(row.deep_view()[0] == row@[0].deep_view());
        assert(views[i as int] == row.deep_view());
        assert(views[i as int][0] == row@[0].deep_view());
        if let Some(link) = find_link(page_url, &row[0]) {
            r.push(link);
            assert(link_views(r@) == link_views(before).push(link@));
            assert(without_fragments(link_views(r@)));
        }
        i = i + 1;
    }
    assert(views.take(rows.len() as int) == views);
    r
}

/// The links that can be followed from the page `page_url` whose text is `html_text`. None has a
/// fragment.
pub fn extract_links(page_url: &str, html_text: &str) -> (r: ExtractedLinks)
    requires
        page_url@.len() <= urls::MAX_URL,
        encode_utf8(html_text@).len() <= html::MAX_HTML,
    ensures
        (r.all.deep_view(), r.same_domain.deep_view()) == followed(page_url@, html_text@),
        forall|i: int| 0 <= i < r.all.len() ==> !(#[trigger] r.all@[i])@.contains('#'),
        forall|i: int|
            0 <= i < r.same_domain.len() ==> !(#[trigger] r.same_domain@[i])@.contains('#'),
{
    let base_domain = match urls::url_parts(page_url) {
        Some((_scheme, domain)) => domain,
        None => {
            let r = ExtractedLinks { same_domain: Vec::new(), all: Vec::new() };
            assert(r.all.deep_view() == Seq::<Seq<char>>::empty());
            assert(r.same_domain.deep_view() == Seq::<Seq<char>>::empty());
            return r;
        },
    };
    let document = html::parse_document(html_text);
    let names: Vec<&str> = vec!["href"];
    assert(names.deep_view() == seq!["href"@]);
    let found = match html::select_attributes(&document, "a[href]", &names) {
        Some(rows) => find_links(page_url, &rows),
        None => Vec::new(),
    };
    assert(link_views(found@) == links_on_page(page_url@, html_text@));
    let ghost views = link_views(found@);
    let r = sort_links(&base_domain, found);
    proof {
        lemma_listed_without_fragments(views, base_domain.deep_view());
        assert forall|i: int| 0 <= i < r.all.len() implies !(#[trigger] r.all@[i])@.contains('#') by {
            assert(r.all.deep_view()[i] == r.all@[i]@);
        }
        assert forall|i: int| 0 <= i < r.same_domain.len() implies !(
        #[trigger] r.same_domain@[i])@.contains('#') by {
            assert(r.same_domain.deep_view()[i] == r.same_domain@[i]@);
        }
    }
    r
}

/// Every link that stays on the site of a page is one of the page's links.
pub proof fn lemma_site_links_are_links(links: Seq<LinkView>, base: Option<Seq<char>>, url: Seq<char>)
    requires
        site_urls(links, base).contains(url),
    ensures
        fetchable_urls(links).contains(url),
    decreases links.len(),
{
    let site = site_urls(links, base);
    let all = fetchable_urls(links);
    let k = choose|k: int| 0 <= k < site.len() && site[k] == url;
    let rest = links.drop_last();
    let site_rest = site_urls(rest, base);
    if k < site_rest.len() {
        assert(site_rest[k] == url);
        lemma_site_links_are_links(rest, base, url);
        let all_rest = fetchable_urls(rest);
        let j = choose|j: int| 0 <= j < all_rest.len() && all_rest[j] == url;
        assert(all[j] == url);
    } else {
        assert(all[all.len() - 1] == url);
    }
}

/// The links that can be fetched are those of the schemes http and https, all of them and in their
/// order; those that stay on a site are the ones of these whose domain is that of the site or lies
/// below it.
pub proof fn lemma_sorted_links(links: Seq<LinkView>, base: Option<Seq<char>>)
    ensures
        fetchable_urls(links) == links.filter(
            |l: LinkView| l.scheme == "http"@ || l.scheme == "https"@,
        ).map_values(|l: LinkView| l.url),
        site_urls(links, base) == links.filter(
            |l: LinkView|
                (l.scheme == "http"@ || l.scheme == "https"@) && base is Some && l.domain is Some
                    && urls::same_site(l.domain->0, base->0),
        ).map_values(|l: LinkView| l.url),
    decreases links.len(),
{
    reveal(Seq::filter);
    let web = |l: LinkView| l.scheme == "http"@ || l.scheme == "https"@;
    let near = |l: LinkView|
        (l.scheme == "http"@ || l.scheme == "https"@) && base is Some && l.domain is Some
            && urls::same_site(l.domain->0, base->0);
    let url = |l: LinkView| l.url;
    if links.len() == 0 {
        assert(fetchable_urls(links) == links.filter(web).map_values(url));
        assert(site_urls(links, base) == links.filter(near).map_values(url));
    } else {
        let front = links.drop_last();
        let last = links.last();
        lemma_sorted_links(front, base);
        if web(last) {
            assert(front.filter(web).push(last).map_values(url) == front.filter(web).map_values(
                url,
            ).push(last.url));
        }
        if near(last) {
            assert(front.filter(near).push(last).map_values(url) == front.filter(near).map_values(
                url,
            ).push(last.url));
        }
    }
}

/// A reference makes a link where it can be joined to the address of its page, the outcome has a
/// normal form, and neither is too long: the link to that form, with its scheme and domain.
pub proof fn lemma_link_at(
    page_url: Seq<char>,
    reference: Seq<char>,
    absolute: Seq<char>,
    url: Seq<char>,
    scheme: Seq<char>,
    domain: Option<Seq<char>>,
)
    ensures
        urls::resolved(page_url, reference) == Some(absolute) && urls::normalized(absolute) == Some(
            url,
        ) && urls::parts_of(url) == Some((scheme, domain)) && absolute.len() <= urls::MAX_URL
            && url.len() <= urls::MAX_URL ==> link_at(page_url, Some(reference)) == Some(
            (LinkView { url, scheme, domain }),
        ),
        link_at(page_url, Some(reference)) matches Some(link) ==> {
            &&& urls::resolved(page_url, reference) is Some
            &&& urls::normalized(urls::resolved(page_url, reference)->0) == Some(link.url)
            &&& urls::parts_of(link.url) == Some((link.scheme, link.domain))
        },
        link_at(page_url, None) is None,
{
}

/// Every element of a row of references is asked for its link, and all links that are made are
/// there, in their order.
pub proof fn lemma_links_at(page_url: Seq<char>, rows: Seq<Seq<Option<Seq<char>>>>)
    ensures
        links_at(page_url, rows) == rows.map_values(
            |row: Seq<Option<Seq<char>>>| link_at(page_url, row[0]),
        ).filter(|l: Option<LinkView>| l is Some).map_values(|l: Option<LinkView>| l->0),
    decreases rows.len(),
{
    reveal(Seq::filter);
    let made = |row: Seq<Option<Seq<char>>>| link_at(page_url, row[0]);
    let some = |l: Option<LinkView>| l is Some;
    let link = |l: Option<LinkView>| l->0;
    if rows.len() == 0 {
        assert(links_at(page_url, rows) == rows.map_values(made).filter(some).map_values(link));
    } else {
        let front = rows.drop_last();
        let last = made(rows.last());
        lemma_links_at(page_url, front);
        assert(rows.map_values(made).drop_last() == front.map_values(made));
        assert(rows.map_values(made).last() == last);
        let kept = front.map_values(made).filter(some);
        if some(last) {
            assert(kept.push(last).map_values(link) == kept.map_values(link).push(last->0));
        }
    }
}

/// What can be followed on a page are the links of its `a` elements that have an `href`, and on a
/// page at no absolute URL nothing. The site of a page is that of its own domain.
pub proof fn lemma_followed(page_url: Seq<char>, source: Seq<char>)
    ensures
        urls::parts_of(page_url) is None ==> followed(page_url, source) == (
            Seq::<Seq<char>>::empty(),
            Seq::<Seq<char>>::empty(),
        ),
        urls::parts_of(page_url) matches Some((scheme, domain)) ==> (html::selected_attributes(
            html::parsed_page(source),
            "a[href]"@,
            seq!["href"@],
        ) matches Some(rows) ==> followed(page_url, source) == (
            fetchable_urls(links_at(page_url, rows)),
            site_urls(links_at(page_url, rows), domain),
        )),
        html::selected_attributes(
            html::parsed_page(source),
            "a[href]"@,
            seq!["href"@],
        ) is None ==> followed(page_url, source).0.len() == 0 && followed(
            page_url,
            source,
        ).1.len() == 0,
        domain_of(page_url) == match urls::parts_of(page_url) {
            Some((_, domain)) => domain,
            None => None,
        },
{
}

/// A link that was found is its address, its scheme and its domain.
pub proof fn lemma_link_views(links: Seq<FoundLink>, i: int)
    requires
        0 <= i < links.len(),
    ensures
        link_views(links).len() == links.len(),
        link_views(links)[i].url == links[i].url@,
        link_views(links)[i].scheme == links[i].scheme@,
        links[i].domain matches Some(d) ==> link_views(links)[i].domain == Some(d@),
        links[i].domain is None ==> link_views(links)[i].domain is None,
{
}

} // verus!
