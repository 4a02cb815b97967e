//! HTML documents: what elements a selector finds, their attributes and their text.

use scraper::{Html, Selector};
use vstd::prelude::*;
use vstd::utf8::*;

verus! {

/// The number of bytes that a page may have. The parser counts bytes in 32 bits and doubles its
/// buffers up to half of that; a character that it replaces may take three bytes for one.
pub const MAX_HTML: usize = 0x2aaa_aaaa;

/// Whether `html` has no more bytes than a page may have.
pub fn page_fits(html: &str) -> (r: bool)
    ensures
        r == (encode_utf8(html@).len() <= MAX_HTML),
        encode_utf8(html@).len() <= 700_000_000 ==> r,
{
    html.as_bytes().len() <= MAX_HTML
}

/// Scraper's parsed document.
#[verifier::external_type_specification]
#[verifier::external_body]
pub struct ExHtml(Html);

/// The document that scraper parses from the text `source`.
pub uninterp spec fn parsed_page(source: Seq<char>) -> Html;

/// For each element of `document` that `selector` finds, in the order in which scraper made them,
/// the value of each attribute of `names`, `None` where the element has no such attribute. `None` where
/// `selector` is no CSS selector.
pub uninterp spec fn selected_attributes(document: Html, selector: Seq<char>, names: Seq<Seq<char>>) -> Option<Seq<Seq<Option<Seq<char>>>>>;

/// The pieces of text, in order, inside the first element of `document`, in the order in which
/// scraper made them, that `selector` finds. `None` where it finds none or is no CSS selector.
pub uninterp spec fn first_text(document: Html, selector: Seq<char>) -> Option<Seq<Seq<char>>>;

/// The number of characters of `pieces` together.
pub open spec fn total_len(pieces: Seq<Seq<char>>) -> nat
    decreases pieces.len(),
{
    if pieces.len() == 0 {
        0
    } else {
        total_len(pieces.drop_last()) + pieces.last().len()
    }
}

/// There are no more than `n` pieces, and they have no more than `n` characters together.
pub open spec fn pieces_within(pieces: Seq<Seq<char>>, n: nat) -> bool {
    pieces.len() <= n && total_len(pieces) <= n
}

/// No value of `rows` has more than `n` characters.
pub open spec fn values_within(rows: Seq<Seq<Option<Seq<char>>>>, n: nat) -> bool {
    forall|i: int, k: int|
        0 <= i < rows.len() && 0 <= k < rows[i].len() ==> (#[trigger] rows[i][k] matches Some(v)
            ==> v.len() <= n)
}

/// `Html::parse_document` parses every text of a page's size; the document is a function of the
/// text. It panics on a text that is longer than its buffers can be.
#[verifier::external_body]
pub(crate) fn parse_document(html: &str) -> (r: Html)
    requires
        encode_utf8(html@).len() <= MAX_HTML,
    ensures
        r == parsed_page(html@),
{
    Html::parse_document(html)
}

/// `Html::select` with `Selector::parse` finds the elements, `Element::attr` reads their
/// attributes. The contract names the outcome, which depends on the document, the selector and
/// the attributes' names alone, and says that each element gives one value for each name, and that
/// each character of a value comes from a character of the text or from more than one.
#[verifier::external_body]
pub(crate) fn select_attributes(document: &Html, selector: &str, names: &Vec<&str>) -> (r: Option<
    Vec<Vec<Option<String>>>,
>)
    ensures
        r.deep_view() == selected_attributes(*document, selector@, names.deep_view()),
        r matches Some(rows) ==> forall|i: int|
            0 <= i < rows.len() ==> (#[trigger] rows@[i]).len() == names.len(),
        forall|source: Seq<char>|
            *document == #[trigger] parsed_page(source) ==> (r.deep_view() matches Some(rows)
                ==> values_within(rows, encode_utf8(source).len())),
{
    let selector = Selector::parse(selector).ok()?;
    let rows = document.select(&selector).map(
        |e| names.iter().map(|name| e.value().attr(name).map(|v| v.to_string())).collect(),
    );
    Some(rows.collect())
}

/// `Html::select` with `Selector::parse` finds the element, `ElementRef::text` gives the pieces of
/// text inside it. The contract names the outcome, which depends on the document and the selector
/// alone, and says that each piece, and each character of it, comes from a character of the text or
/// from more than one.
#[verifier::external_body]
pub(crate) fn select_first_text(document: &Html, selector: &str) -> (r: Option<Vec<String>>)
    ensures
        r.deep_view() == first_text(*document, selector@),
        forall|source: Seq<char>|
            *document == #[trigger] parsed_page(source) ==> (r.deep_view() matches Some(pieces)
                ==> pieces_within(pieces, encode_utf8(source).len())),
{
    let selector = Selector::parse(selector).ok()?;
    let element = document.select(&selector).next()?;
    Some(element.text().map(|piece| piece.to_string()).collect())
}

} // verus!
