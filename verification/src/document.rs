//! What the index keeps of a page.

use crate::dates;
use crate::html;
use crate::language;
use crate::links;
use crate::quality;
use crate::quality::{DomainLists, DomainQuality};
use crate::text;
use crate::urls;
use vstd::prelude::*;
use vstd::string::*;
use vstd::utf8::*;

verus! {

/// The number of characters of a page's content that the index keeps.
pub const MAX_CONTENT: usize = 10000;

/// A page as the index keeps it.
#[derive(Debug)]
pub struct Document {
    pub url: String,
    pub title: String,
    /// The beginning of the page's content.
    pub content: String,
    /// The domain of the page, or its address where it has none.
    pub base_url: String,
    pub language: String,
    pub published_date: Option<String>,
    pub domain_quality: DomainQuality,
    /// The quality of the content in thousandths.
    pub content_quality: u32,
    pub has_code: bool,
    /// The number of words of the whole content.
    pub word_count: usize,
}

/// A document as mathematics.
#[verifier::ext_equal]
pub struct DocumentView {
    pub url: Seq<char>,
    pub title: Seq<char>,
    pub content: Seq<char>,
    pub base_url: Seq<char>,
    pub language: Seq<char>,
    pub published_date: Option<Seq<char>>,
    pub domain_quality: DomainQuality,
    pub content_quality: int,
    pub has_code: bool,
    pub word_count: nat,
}

impl View for Document {
    type V = DocumentView;

    open spec fn view(&self) -> DocumentView {
        DocumentView {
            url: self.url@,
            title: self.title@,
            content: self.content@,
            base_url: self.base_url@,
            language: self.language@,
            published_date: self.published_date.deep_view(),
            domain_quality: self.domain_quality,
            content_quality: self.content_quality as int,
            has_code: self.has_code,
            word_count: self.word_count as nat,
        }
    }
}

/// The words of `s` with one space between neighbours.
pub open spec fn spaced(s: Seq<char>) -> Seq<char> {
    text::joined(text::words_of(s), " "@)
}

/// The title that the pieces of text of a title element make; the address of the page where it has
/// no such element.
pub open spec fn title_from(pieces: Option<Seq<Seq<char>>>, url: Seq<char>) -> Seq<char> {
    text::trimmed(
        match pieces {
            Some(p) => text::joined(p, ""@),
            None => url,
        },
    )
}

/// The content that the pieces of text of a page's body make: their words. A page without a body
/// has none.
pub open spec fn content_from(pieces: Option<Seq<Seq<char>>>) -> Seq<char> {
    match pieces {
        Some(p) => spaced(text::joined(p, " "@)),
        None => seq![],
    }
}

/// What is kept of a content.
pub open spec fn kept_content(content: Seq<char>) -> Seq<char> {
    if content.len() <= MAX_CONTENT {
        content
    } else {
        content.take(MAX_CONTENT as int)
    }
}

/// The domain of the page `url`, or the address itself where it has none.
pub open spec fn base_of(url: Seq<char>) -> Seq<char> {
    match links::domain_of(url) {
        Some(domain) => domain,
        None => url,
    }
}

/// What is kept of the page `url` whose text is `source`.
pub open spec fn document_of(url: Seq<char>, source: Seq<char>, lists: DomainLists) -> DocumentView {
    let page = html::parsed_page(source);
    let content = content_from(html::first_text(page, "body"@));
    DocumentView {
        url,
        title: title_from(html::first_text(page, "title"@), url),
        content: kept_content(content),
        base_url: base_of(url),
        language: language::language_of(content),
        published_date: dates::publish_date(page),
        domain_quality: lists.quality_of(base_of(url)),
        content_quality: quality::content_thousandths(
            quality::shows_code(source),
            quality::count_present(text::lowercase(content), quality::technical_terms()),
            text::words_of(content).len(),
        ),
        has_code: quality::shows_code(source),
        word_count: text::words_of(content).len(),
    }
}

/// The words of `s` with one space between neighbours.
pub fn space_words(s: &str) -> (r: String)
    ensures
        r@ == spaced(s@),
{
    text::join(&text::words(s), " ")
}

/// The title of a page.
pub fn make_title(pieces: &Option<Vec<String>>, url: &str) -> (r: String)
    ensures
        r@ == title_from(pieces.deep_view(), url@),
{
    match pieces {
        Some(p) => {
            let title = text::join(p, "");
            text::trim(title.as_str()).to_owned()
        },
        None => text::trim(url).to_owned(),
    }
}

/// The content of a page.
pub fn make_content(pieces: &Option<Vec<String>>) -> (r: String)
    ensures
        r@ == content_from(pieces.deep_view()),
{
    match pieces {
        Some(p) => {
            let joined = text::join(p, " ");
            space_words(joined.as_str())
        },
        None => String::new(),
    }
}

/// What is kept of a content.
pub fn keep_content(content: &str) -> (r: String)
    ensures
        r@ == kept_content(content@),
{
    let a = text::chars_of(content);
    if a.len() <= MAX_CONTENT {
        content.to_owned()
    } else {
        text::text_of(&a, 0, MAX_CONTENT)
    }
}

proof fn lemma_content_length(pieces: Seq<Seq<char>>, n: nat)
    requires
        html::pieces_within(pieces, n),
    ensures
        content_from(Some(pieces)).len() <= 2 * n,
{
    reveal_strlit(" ");
    assert(" "@ == seq![' ']);
    lemma_joined_length(pieces);
    text::lemma_joined_runs_are_shorter(text::joined(pieces, " "@), ' ', text::not_white_space());
}

proof fn lemma_joined_length(pieces: Seq<Seq<char>>)
    ensures
        text::joined(pieces, seq![' ']).len() <= html::total_len(pieces) + pieces.len(),
    decreases pieces.len(),
{
    if pieces.len() > 0 {
        lemma_joined_length(pieces.drop_last());
    }
}

/// What the index keeps of the page `url` whose text is `html_text`.
pub fn process_page(url: &str, html_text: &str, lists: &DomainLists) -> (r: Document)
    requires
        url@.len() <= urls::MAX_URL,
        encode_utf8(html_text@).len() <= html::MAX_HTML,
    ensures
        r@ == document_of(url@, html_text@, *lists),
{
    let page = html::parse_document(html_text);
    let title = make_title(&html::select_first_text(&page, "title"), url);
    let body = html::select_first_text(&page, "body");
    let content = make_content(&body);
    proof {
        if body.deep_view() is Some {
            lemma_content_length(body.deep_view()->0, encode_utf8(html_text@).len());
        }
    }
    let base_url = match urls::url_parts(url) {
        Some((_scheme, Some(domain))) => domain,
        _ => url.to_owned(),
    };
    let (content_quality, has_code) = quality::analyze_content_quality(html_text, content.as_str());
    Document {
        url: url.to_owned(),
        title,
        content: keep_content(content.as_str()),
        language: language::detect_language(content.as_str()),
        published_date: dates::extract_publish_date(&page),
        domain_quality: lists.score_domain_quality(base_url.as_str()),
        base_url,
        content_quality,
        has_code,
        word_count: quality::count_words(content.as_str()),
    }
}

/// The content of a page has the words of its body and no others, in their order; what is kept of
/// it is its beginning.
pub proof fn lemma_content_keeps_words(pieces: Seq<Seq<char>>)
    ensures
        text::words_of(content_from(Some(pieces))) == text::words_of(text::joined(pieces, " "@)),
        kept_content(content_from(Some(pieces))).is_prefix_of(content_from(Some(pieces))),
        kept_content(content_from(Some(pieces))).len() <= MAX_CONTENT,
{
    text::lemma_words_of_joined(text::joined(pieces, " "@));
}

/// Pieces of text that nothing parts are put one behind the other.
proof fn lemma_pieces_together(pieces: Seq<Seq<char>>)
    ensures
        text::joined(pieces, ""@) == pieces.flatten(),
    decreases pieces.len(),
{
    reveal_strlit("");
    let none = Seq::<char>::empty();
    assert(""@ == none);
    if pieces.len() == 1 {
        pieces.lemma_flatten_one_element();
    } else if pieces.len() > 1 {
        let front = pieces.drop_last();
        lemma_pieces_together(front);
        front.lemma_flatten_push(pieces.last());
        assert(front.push(pieces.last()) == pieces);
        assert(text::joined(front, ""@) + none + pieces.last() == text::joined(front, ""@)
            + pieces.last());
    }
}

/// The title of a page is all text of its title element, or its address where it has none, without
/// white space at either end.
pub proof fn lemma_title_from(pieces: Seq<Seq<char>>, url: Seq<char>)
    ensures
        title_from(Some(pieces), url) == text::trimmed(pieces.flatten()),
        title_from(None, url) == text::trimmed(url),
{
    lemma_pieces_together(pieces);
}

/// The content of a page are the words of the text of its body, parted by single spaces; of a page
/// without a body it is empty. The index keeps the first ten thousand characters of it.
pub proof fn lemma_content_from(pieces: Seq<Seq<char>>, content: Seq<char>)
    ensures
        content_from(Some(pieces)) == text::joined(
            text::words_of(text::joined(pieces, " "@)),
            " "@,
        ),
        content_from(None).len() == 0,
        content.len() <= 10000 ==> kept_content(content) == content,
        content.len() > 10000 ==> kept_content(content) == content.subrange(0, 10000),
        spaced(content) == text::joined(text::words_of(content), " "@),
{
}

/// What is kept of a page: its address and title; the beginning of its content; its domain, or the
/// address where it has none; the language, the number of words and the quality of the whole
/// content; the date that it gives; what is known of its domain; and whether it shows code.
pub proof fn lemma_document_of(url: Seq<char>, source: Seq<char>, lists: DomainLists)
    ensures
        ({
            let doc = document_of(url, source, lists);
            let page = html::parsed_page(source);
            let content = content_from(html::first_text(page, "body"@));
            let words = text::words_of(content).len();
            let terms = quality::count_present(text::lowercase(content), quality::technical_terms());
            &&& doc.url == url
            &&& doc.title == title_from(html::first_text(page, "title"@), url)
            &&& doc.content == kept_content(content)
            &&& urls::parts_of(url) matches Some((scheme, Some(domain))) ==> doc.base_url == domain
            &&& !(urls::parts_of(url) matches Some((scheme, Some(domain)))) ==> doc.base_url == url
            &&& doc.language == language::language_of(content)
            &&& doc.published_date == dates::publish_date(page)
            &&& doc.domain_quality == lists.quality_of(doc.base_url)
            &&& doc.has_code == quality::shows_code(source)
            &&& doc.word_count == words
            &&& doc.content_quality == quality::content_thousandths(doc.has_code, terms, words)
        }),
{
}

/// A document is seen with everything that it holds.
pub proof fn lemma_document_view(doc: Document)
    ensures
        doc@.url == doc.url@ && doc@.title == doc.title@ && doc@.content == doc.content@
            && doc@.base_url == doc.base_url@ && doc@.language == doc.language@
            && doc@.domain_quality == doc.domain_quality && doc@.content_quality
            == doc.content_quality && doc@.has_code == doc.has_code && doc@.word_count
            == doc.word_count,
        doc.published_date matches Some(d) ==> doc@.published_date == Some(d@),
        doc.published_date is None ==> doc@.published_date is None,
{
}

} // verus!
