//! What becomes of a page that was fetched.

use crate::html;
use crate::links;
use crate::numbers;
use crate::records;
use crate::records::PageRecord;
use crate::text;
use crate::urls;
use sha2::{Digest, Sha256};
use vstd::prelude::*;
use vstd::string::*;
use vstd::utf8::*;

verus! {

/// The SHA-256 digest of `bytes`.
pub uninterp spec fn sha256(bytes: Seq<u8>) -> Seq<u8>;

/// `Sha256::digest` gives the SHA-256 digest, 32 bytes that depend on the bytes alone.
#[verifier::external_body]
fn digest(bytes: &Vec<u8>) -> (r: Vec<u8>)
    ensures
        r@ == sha256(bytes@),
        r.len() == 32,
{
    Sha256::digest(bytes).to_vec()
}

/// The text that `String::from_utf8_lossy` makes of `bytes`.
pub uninterp spec fn lossy_text(bytes: Seq<u8>) -> Seq<char>;

/// `String::from_utf8_lossy` makes text of all bytes: what they encode where they are UTF-8, and
/// otherwise a text with replacement characters, which the contract names. It depends on the bytes
/// alone. A replacement character has three bytes and stands for one or more.
#[verifier::external_body]
fn decode_lossy(bytes: &Vec<u8>) -> (r: String)
    ensures
        r@ == lossy_text(bytes@),
        valid_utf8(bytes@) ==> r@ == decode_utf8(bytes@),
        encode_utf8(r@).len() <= 3 * bytes.len(),
{
    String::from_utf8_lossy(bytes).into_owned()
}

/// The text of a page with the body `bytes`. What is not UTF-8 in it is replaced.
pub fn page_text(bytes: &Vec<u8>) -> (r: String)
    ensures
        r@ == lossy_text(bytes@),
        valid_utf8(bytes@) ==> r@ == decode_utf8(bytes@),
        encode_utf8(r@).len() <= 3 * bytes.len(),
{
    decode_lossy(bytes)
}

/// What the body `bytes` is known by: its digest in 64 hexadecimal digits.
pub fn content_hash(bytes: &Vec<u8>) -> (r: String)
    ensures
        r@ == numbers::hex_text(sha256(bytes@)),
        r@.len() == 64,
{
    numbers::write_hex(&digest(bytes))
}

/// Where the page `url` is fetched from.
pub open spec fn address_of(url: Seq<char>) -> Seq<char> {
    match urls::normalized(url) {
        Some(normal) => normal,
        None => url,
    }
}

/// Where the page `url` is fetched from: its normal form, or `url` itself where it has none.
pub fn fetch_address(url: &str) -> (r: String)
    requires
        url@.len() <= urls::MAX_URL,
    ensures
        r@ == address_of(url@),
{
    match urls::normalize_url(url) {
        Ok(normal) => normal,
        Err(_) => url.to_owned(),
    }
}

/// What an answer to a request is good for.
#[derive(Clone, Copy, Debug, PartialEq, Eq, Structural)]
pub enum Answer {
    /// The request failed.
    Refused,
    /// The answer is no page.
    NotHtml,
    /// The answer is a page.
    Html,
}

/// What an answer is good for. An answer that does not say of what type it is has the empty type.
pub fn judge_answer(success: bool, content_type: &str) -> (r: Answer)
    ensures
        r == if !success {
            Answer::Refused
        } else if text::contains_text(content_type@, "text/html"@) {
            Answer::Html
        } else {
            Answer::NotHtml
        },
{
    if !success {
        Answer::Refused
    } else if text::contains(content_type, "text/html") {
        Answer::Html
    } else {
        Answer::NotHtml
    }
}

/// A page as it was fetched.
pub struct FetchedPage {
    /// Where it was fetched from.
    pub address: String,
    pub content_type: String,
    pub retrieval_date: String,
    pub crawl_time_ms: i64,
    pub body: Vec<u8>,
}

/// What becomes of a page that was fetched.
pub struct CrawledPage {
    /// The root domain of the page and what is stored of it. Nothing is stored of a page without a
    /// domain.
    pub record: Option<(String, PageRecord)>,
    /// The links to follow from it.
    pub links: Vec<String>,
}

impl CrawledPage {
    /// The root domain of the page and what is stored of it.
    pub open spec fn stored(self) -> Option<(Seq<char>, records::RecordView)> {
        match self.record {
            Some((domain, record)) => Some((domain@, record@)),
            None => None,
        }
    }
}

impl FetchedPage {
    /// What is stored of the page, where its text is `html_text`.
    pub open spec fn record_with(self, html_text: Seq<char>) -> records::RecordView {
        records::RecordView {
            url: self.address@,
            content_type: self.content_type@,
            retrieval_date: self.retrieval_date@,
            crawl_time_ms: self.crawl_time_ms,
            content_hash: numbers::hex_text(sha256(self.body@)),
            body: self.body@,
            outbound_links: links::followed(self.address@, html_text).0,
        }
    }

    /// What is stored of the page.
    pub open spec fn record(self) -> records::RecordView {
        self.record_with(lossy_text(self.body@))
    }
}

/// What becomes of a page whose text is `html_text`: it is stored under its root domain with all its
/// links, and those that stay on its site are followed.
pub fn digest_text(page: FetchedPage, html_text: &str) -> (r: CrawledPage)
    requires
        page.address@.len() <= urls::MAX_URL,
        encode_utf8(html_text@).len() <= html::MAX_HTML,
    ensures
        r.links.deep_view() == links::followed(page.address@, html_text@).1,
        r.stored() == match links::domain_of(page.address@) {
            Some(domain) => Some((urls::root_domain(domain), page.record_with(html_text@))),
            None => None,
        },
{
    let extracted = links::extract_links(page.address.as_str(), html_text);
    let record = match urls::url_parts(page.address.as_str()) {
        Some((_scheme, Some(domain))) => {
            let content_hash = content_hash(&page.body);
            Some(
                (
                    urls::root_of(domain.as_str()),
                    PageRecord {
                        url: page.address,
                        content_type: page.content_type,
                        retrieval_date: page.retrieval_date,
                        crawl_time_ms: page.crawl_time_ms,
                        content_hash,
                        body: page.body,
                        outbound_links: extracted.all,
                    },
                ),
            )
        },
        _ => None,
    };
    CrawledPage { record, links: extracted.same_domain }
}

/// What becomes of a page: it is stored under its root domain with all its links, and those that
/// stay on its site are followed. `None` for a page whose text is too long to be parsed.
pub fn digest_page(page: FetchedPage) -> (r: Option<CrawledPage>)
    requires
        page.address@.len() <= urls::MAX_URL,
    ensures
        r is Some <==> encode_utf8(lossy_text(page.body@)).len() <= html::MAX_HTML,
        3 * page.body.len() <= html::MAX_HTML ==> r is Some,
        r matches Some(crawled) ==> crawled.links.deep_view() == links::followed(
            page.address@,
            lossy_text(page.body@),
        ).1,
        r matches Some(crawled) ==> crawled.stored() == match links::domain_of(page.address@) {
            Some(domain) => Some((urls::root_domain(domain), page.record())),
            None => None,
        },
{
    let html_text = page_text(&page.body);
    if html::page_fits(html_text.as_str()) {
        Some(digest_text(page, html_text.as_str()))
    } else {
        None
    }
}

/// A page that is stored lists every link that is followed from it.
pub proof fn lemma_followed_links_are_stored(page: FetchedPage, link: Seq<char>)
    requires
        links::followed(page.address@, lossy_text(page.body@)).1.contains(link),
    ensures
        page.record().outbound_links.contains(link),
{
    let source = lossy_text(page.body@);
    links::lemma_site_links_are_links(
        links::links_on_page(page.address@, source),
        links::domain_of(page.address@),
        link,
    );
}

/// Pages of one site are stored under the same root domain, where the site is of more than one
/// label.
pub proof fn lemma_one_file_for_a_site(a: FetchedPage, b: FetchedPage, site: Seq<char>)
    requires
        urls::inner_dots(site) >= 1,
        links::domain_of(a.address@) matches Some(d) && urls::same_site(d, site),
        links::domain_of(b.address@) matches Some(d) && urls::same_site(d, site),
    ensures
        urls::root_domain(links::domain_of(a.address@)->0) == urls::root_domain(
            links::domain_of(b.address@)->0,
        ),
{
    urls::lemma_one_root_for_a_site(
        links::domain_of(a.address@)->0,
        links::domain_of(b.address@)->0,
        site,
    );
}

/// A page is fetched at its normal form, and at the address itself where that has none.
pub proof fn lemma_address_of(url: Seq<char>)
    ensures
        urls::normalized(url) matches Some(normal) ==> address_of(url) == normal,
        urls::normalized(url) is None ==> address_of(url) == url,
{
}

/// What is stored of a page is what was fetched: its address, type, date, time and body as they are,
/// the digest of its body, and all links of its text.
pub proof fn lemma_record(page: FetchedPage, html_text: Seq<char>)
    ensures
        page.record_with(html_text).url == page.address@,
        page.record_with(html_text).content_type == page.content_type@,
        page.record_with(html_text).retrieval_date == page.retrieval_date@,
        page.record_with(html_text).crawl_time_ms == page.crawl_time_ms,
        page.record_with(html_text).body == page.body@,
        page.record_with(html_text).content_hash == numbers::hex_text(sha256(page.body@)),
        page.record_with(html_text).outbound_links == links::followed(page.address@, html_text).0,
        page.record() == page.record_with(lossy_text(page.body@)),
{
}

/// What is kept of a crawled page are its domain and its record.
pub proof fn lemma_stored(page: CrawledPage)
    ensures
        page.record matches Some((domain, record)) ==> page.stored() == Some((domain@, record@)),
        page.record is None ==> page.stored() is None,
{
}

} // verus!
