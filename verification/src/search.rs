//! Search requests: operators in the query, filters on the hits, and what is shown of a hit.

use crate::text;
use crate::urls;
use vstd::prelude::*;
use vstd::string::*;
use vstd::utf8::*;

verus! {

/// No request gets more results than this.
pub const MAX_RESULTS: usize = 100;

/// How many hits are looked at for each result that is wanted: the filters come after the search
/// and may drop some.
pub const OVERSAMPLING: usize = 3;

/// No search looks at more hits than this.
pub const MAX_HITS: usize = 300;

/// The number of results when a request does not say.
pub const DEFAULT_RESULTS: usize = 10;

/// The number of bytes of content that an excerpt shows.
pub const EXCERPT_BYTES: usize = 200;

/// What stands in `query` behind the first `operator`, up to the next blank.
pub open spec fn operator_value(query: Seq<char>, operator: Seq<char>) -> Option<Seq<char>> {
    match text::position(query, operator) {
        Some(i) => Some(text::before_char(query.skip(i + operator.len()), ' ')),
        None => None,
    }
}

/// `query` without `operator` and its value, wherever both stand together.
pub open spec fn without_operator(
    query: Seq<char>,
    operator: Seq<char>,
    value: Option<Seq<char>>,
) -> Seq<char> {
    match value {
        Some(v) => text::without_all(query, operator + v),
        None => query,
    }
}

/// `query` asks for pages with code.
pub open spec fn asks_for_code(query: Seq<char>) -> bool {
    text::contains_text(query, "has:code"@)
}

/// The words to search for: `query` without its operators.
pub open spec fn cleaned_query(query: Seq<char>) -> Seq<char> {
    let no_site = without_operator(query, "site:"@, operator_value(query, "site:"@));
    let no_lang = without_operator(no_site, "lang:"@, operator_value(query, "lang:"@));
    let no_code = if asks_for_code(query) {
        text::without_all(no_lang, "has:code"@)
    } else {
        no_lang
    };
    text::trimmed(no_code)
}

fn find_operator(query: &str, operator: &str) -> (r: Option<String>)
    ensures
        r.deep_view() == operator_value(query@, operator@),
{
    let q = text::chars_of(query);
    let op = text::chars_of(operator);
    match text::find_chars(&q, &op) {
        Some(i) => {
            let end: usize = q.len();
            assert(i + op.len() <= end);
            let rest = query.substring_char(i + op.len(), end);
            assert(rest@ == query@.skip(i + operator@.len()));
            Some(text::until_char(rest, ' ').to_owned())
        },
        None => None,
    }
}

fn remove_operator(query: &str, operator: &str, value: &Option<String>) -> (r: String)
    requires
        operator@.len() > 0,
    ensures
        r@ == without_operator(query@, operator@, value.deep_view()),
{
    match value {
        Some(v) => {
            let pattern = text::concat(operator, v.as_str());
            text::remove_all(query, pattern.as_str())
        },
        None => query.to_owned(),
    }
}

/// The operators of a query: the cleaned query, the site, the language, and whether only pages
/// with code are wanted.
pub fn parse_search_operators(query: &str) -> (r: (String, Option<String>, Option<String>, bool))
    ensures
        r.0@ == cleaned_query(query@),
        r.1.deep_view() == operator_value(query@, "site:"@),
        r.2.deep_view() == operator_value(query@, "lang:"@),
        r.3 == asks_for_code(query@),
{
    proof {
        reveal_strlit("site:");
        reveal_strlit("lang:");
        reveal_strlit("has:code");
    }
    let site = find_operator(query, "site:");
    let lang = find_operator(query, "lang:");
    let has_code = text::contains(query, "has:code");
    let no_site = remove_operator(query, "site:", &site);
    let no_lang = remove_operator(no_site.as_str(), "lang:", &lang);
    let no_code = if has_code {
        text::remove_all(no_lang.as_str(), "has:code")
    } else {
        no_lang
    };
    (text::trim(no_code.as_str()).to_owned(), site, lang, has_code)
}

/// A search request.
pub struct SearchQuery {
    pub q: String,
    pub limit: usize,
    pub lang: Option<String>,
    pub date_from: Option<String>,
    pub date_to: Option<String>,
    pub code_only: bool,
}

/// Why a search request is refused.
#[derive(Clone, Copy, Debug, PartialEq, Eq, Structural)]
pub enum SearchError {
    EmptyQuery,
}

impl SearchError {
    /// What the client is told.
    pub fn message(&self) -> (r: &'static str)
        ensures
            r@ == "Query cannot be empty"@,
    {
        match self {
            SearchError::EmptyQuery => "Query cannot be empty",
        }
    }
}

/// What is searched for, what is kept of the hits, and how many results are wanted.
pub struct SearchPlan {
    pub query: String,
    pub site: Option<String>,
    pub lang: Option<String>,
    pub code_only: bool,
    pub date_from: Option<String>,
    pub date_to: Option<String>,
    pub limit: usize,
    pub search_limit: usize,
}

/// The number of results that a request for `limit` of them gets at most.
pub open spec fn result_limit(limit: usize) -> int {
    if limit <= MAX_RESULTS {
        limit as int
    } else {
        MAX_RESULTS as int
    }
}

/// The number of hits that are looked at for a request for `limit` results.
pub open spec fn hit_limit(limit: usize) -> int {
    let wanted = result_limit(limit) * OVERSAMPLING;
    if wanted <= MAX_HITS {
        wanted
    } else {
        MAX_HITS as int
    }
}

/// `plan` is the plan for the request `params`.
pub open spec fn plans(plan: SearchPlan, params: SearchQuery) -> bool {
    &&& plan.query@ == cleaned_query(params.q@)
    &&& plan.site.deep_view() == operator_value(params.q@, "site:"@)
    &&& plan.lang.deep_view() == match params.lang {
        Some(lang) => Some(lang@),
        None => operator_value(params.q@, "lang:"@),
    }
    &&& plan.code_only == (params.code_only || asks_for_code(params.q@))
    &&& plan.date_from.deep_view() == params.date_from.deep_view()
    &&& plan.date_to.deep_view() == params.date_to.deep_view()
    &&& plan.limit == result_limit(params.limit)
    &&& plan.search_limit == hit_limit(params.limit)
}

/// The number of results when a request does not say.
pub fn default_limit() -> (r: usize)
    ensures
        r == DEFAULT_RESULTS == 10,
{
    DEFAULT_RESULTS
}

/// What a search request asks for. A query of white space alone is refused.
pub fn plan_search(params: SearchQuery) -> (r: Result<SearchPlan, SearchError>)
    ensures
        r matches Err(e) ==> e == SearchError::EmptyQuery && text::trimmed(params.q@).len() == 0,
        r matches Ok(plan) ==> text::trimmed(params.q@).len() > 0 && plans(plan, params),
{
    if text::trim(params.q.as_str()).is_empty() {
        return Err(SearchError::EmptyQuery);
    }
    let (query, site, lang_from_query, has_code) = parse_search_operators(params.q.as_str());
    let lang = match params.lang {
        Some(lang) => Some(lang),
        None => lang_from_query,
    };
    let limit: usize = if params.limit <= MAX_RESULTS {
        params.limit
    } else {
        MAX_RESULTS
    };
    let wanted: usize = limit * OVERSAMPLING;
    let search_limit: usize = if wanted <= MAX_HITS {
        wanted
    } else {
        MAX_HITS
    };
    Ok(
        SearchPlan {
            query,
            site,
            lang,
            code_only: params.code_only || has_code,
            date_from: params.date_from,
            date_to: params.date_to,
            limit,
            search_limit,
        },
    )
}

/// What the index has stored of a page; a field that it has not stored is `None`.
pub struct StoredDocument {
    pub url: Option<String>,
    pub title: Option<String>,
    pub content: Option<String>,
    pub base_url: Option<String>,
    pub language: Option<String>,
    pub published_date: Option<String>,
    pub has_code: Option<bool>,
    pub word_count: Option<u64>,
}

/// `value`, or `default` where there is none.
pub open spec fn text_or(value: Option<String>, default: Seq<char>) -> Seq<char> {
    match value {
        Some(v) => v@,
        None => default,
    }
}

impl StoredDocument {
    pub open spec fn base_url_text(self) -> Seq<char> {
        text_or(self.base_url, ""@)
    }

    pub open spec fn language_text(self) -> Seq<char> {
        text_or(self.language, "unknown"@)
    }

    pub open spec fn content_text(self) -> Seq<char> {
        text_or(self.content, ""@)
    }

    pub open spec fn contains_code(self) -> bool {
        self.has_code == Some(true)
    }

    /// The date of publication; an empty one counts as none.
    pub open spec fn date(self) -> Option<Seq<char>> {
        match self.published_date {
            Some(d) => if d@.len() > 0 {
                Some(d@)
            } else {
                None
            },
            None => None,
        }
    }
}

impl SearchPlan {
    /// The page `doc` meets every filter of the plan. A page without a date meets both date
    /// filters.
    pub open spec fn keeps(self, doc: StoredDocument) -> bool {
        &&& self.site matches Some(site) ==> text::contains_text(doc.base_url_text(), site@)
        &&& self.lang matches Some(lang) ==> doc.language_text() == lang@
        &&& self.code_only ==> doc.contains_code()
        &&& (self.date_from matches Some(from) ==> (doc.date() matches Some(date) ==> text::lex_le(
            from@,
            date,
        )))
        &&& (self.date_to matches Some(to) ==> (doc.date() matches Some(date) ==> text::lex_le(
            date,
            to@,
        )))
    }

    /// Whether the page `doc` meets every filter of the plan.
    pub fn accepts(&self, doc: &StoredDocument) -> (r: bool)
        ensures
            r == self.keeps(*doc),
    {
        if let Some(site) = &self.site {
            if !text::contains(str_or(&doc.base_url, ""), site.as_str()) {
                return false;
            }
        }
        if let Some(lang) = &self.lang {
            if !text::same_text(str_or(&doc.language, "unknown"), lang.as_str()) {
                return false;
            }
        }
        if self.code_only && !bool_or_false(&doc.has_code) {
            return false;
        }
        if let Some(date) = date_of(doc) {
            if let Some(from) = &self.date_from {
                if text::text_lt(date, from.as_str()) {
                    return false;
                }
            }
            if let Some(to) = &self.date_to {
                if text::text_lt(to.as_str(), date) {
                    return false;
                }
            }
        }
        true
    }
}

fn str_or<'a>(value: &'a Option<String>, default: &'a str) -> (r: &'a str)
    ensures
        r@ == text_or(*value, default@),
{
    match value {
        Some(v) => v.as_str(),
        None => default,
    }
}

fn bool_or_false(value: &Option<bool>) -> (r: bool)
    ensures
        r == (*value == Some(true)),
{
    match value {
        Some(b) => *b,
        None => false,
    }
}

fn date_of<'a>(doc: &'a StoredDocument) -> (r: Option<&'a str>)
    ensures
        r matches Some(d) ==> doc.date() == Some(d@),
        r is None ==> doc.date() is None,
{
    match &doc.published_date {
        Some(d) => if d.as_str().is_empty() {
            None
        } else {
            Some(d.as_str())
        },
        None => None,
    }
}

/// An excerpt can be cut from `content`: a character ends where the excerpt ends.
pub open spec fn can_excerpt(content: Seq<char>) -> bool {
    encode_utf8(content).len() > EXCERPT_BYTES ==> is_char_boundary(
        encode_utf8(content),
        EXCERPT_BYTES as int,
    )
}

/// The beginning of `content`, with an ellipsis where that is not all of it.
pub open spec fn excerpt_of(content: Seq<char>) -> Seq<char> {
    if encode_utf8(content).len() > EXCERPT_BYTES {
        decode_utf8(encode_utf8(content).take(EXCERPT_BYTES as int)) + "..."@
    } else {
        content
    }
}

/// Whether an excerpt can be cut from `content`.
pub fn excerpt_fits(content: &str) -> (r: bool)
    ensures
        r == can_excerpt(content@),
{
    content.as_bytes().len() <= EXCERPT_BYTES || content.is_char_boundary(EXCERPT_BYTES)
}

/// The beginning of `content`.
pub fn excerpt(content: &str) -> (r: String)
    requires
        can_excerpt(content@),
    ensures
        r@ == excerpt_of(content@),
{
    if content.as_bytes().len() > EXCERPT_BYTES {
        let (head, _tail) = content.split_at(EXCERPT_BYTES);
        proof {
            encode_utf8_decode_utf8(head@);
            assert(encode_utf8(head@) == encode_utf8(content@).take(EXCERPT_BYTES as int));
        }
        text::concat(head, "...")
    } else {
        content.to_owned()
    }
}

/// The passage that the index found for a hit: as plain text, and marked up.
pub struct Passage {
    pub fragment: String,
    pub html: String,
}

/// One hit of a search, in the order of the search.
pub struct Hit {
    pub document: StoredDocument,
    pub passage: Option<Passage>,
}

/// One result as it is shown. `hit` is the position of its hit in the search.
pub struct SearchResult {
    pub hit: usize,
    pub url: String,
    pub title: String,
    pub snippet: String,
    pub base_url: String,
    pub language: String,
    pub published_date: Option<String>,
    pub has_code: bool,
    pub word_count: u64,
}

/// A result as mathematics.
#[verifier::ext_equal]
pub struct ResultView {
    pub hit: int,
    pub url: Seq<char>,
    pub title: Seq<char>,
    pub snippet: Seq<char>,
    pub base_url: Seq<char>,
    pub language: Seq<char>,
    pub published_date: Option<Seq<char>>,
    pub has_code: bool,
    pub word_count: u64,
}

impl View for SearchResult {
    type V = ResultView;

    open spec fn view(&self) -> ResultView {
        ResultView {
            hit: self.hit as int,
            url: self.url@,
            title: self.title@,
            snippet: self.snippet@,
            base_url: self.base_url@,
            language: self.language@,
            published_date: self.published_date.deep_view(),
            has_code: self.has_code,
            word_count: self.word_count,
        }
    }
}

impl Hit {
    /// The passage that is shown: one without text counts as none.
    pub open spec fn marked_passage(self) -> Option<Seq<char>> {
        match self.passage {
            Some(p) => if p.fragment@.len() > 0 {
                Some(p.html@)
            } else {
                None
            },
            None => None,
        }
    }

    /// The passage, or where there is none the beginning of the content.
    pub open spec fn snippet_text(self) -> Seq<char> {
        match self.marked_passage() {
            Some(html) => html,
            None => excerpt_of(self.document.content_text()),
        }
    }

    /// There is a passage to show, or an excerpt can be cut from the content.
    pub open spec fn has_snippet(self) -> bool {
        self.marked_passage() is Some || can_excerpt(self.document.content_text())
    }

    /// What is shown of the hit at position `position`.
    pub open spec fn shown(self, position: int) -> ResultView {
        ResultView {
            hit: position,
            url: text_or(self.document.url, ""@),
            title: text_or(self.document.title, "Untitled"@),
            snippet: self.snippet_text(),
            base_url: self.document.base_url_text(),
            language: self.document.language_text(),
            published_date: self.document.date(),
            has_code: self.document.contains_code(),
            word_count: match self.document.word_count {
                Some(n) => n,
                None => 0,
            },
        }
    }

    /// Whether there is something to show of the hit.
    pub fn snippet_fits(&self) -> (r: bool)
        ensures
            r == self.has_snippet(),
    {
        match &self.passage {
            Some(p) => !p.fragment.as_str().is_empty() || excerpt_fits(
                str_or(&self.document.content, ""),
            ),
            None => excerpt_fits(str_or(&self.document.content, "")),
        }
    }
}

fn string_or(value: Option<String>, default: &str) -> (r: String)
    ensures
        r@ == text_or(value, default@),
{
    match value {
        Some(v) => v,
        None => default.to_owned(),
    }
}

fn show(hit: Hit, position: usize) -> (r: SearchResult)
    requires
        hit.has_snippet(),
    ensures
        r@ == hit.shown(position as int),
{
    let published_date = match date_of(&hit.document) {
        Some(d) => Some(d.to_owned()),
        None => None,
    };
    let has_code = bool_or_false(&hit.document.has_code);
    let content = string_or(hit.document.content, "");
    let snippet = match hit.passage {
        Some(p) => if p.fragment.as_str().is_empty() {
            excerpt(content.as_str())
        } else {
            p.html
        },
        None => excerpt(content.as_str()),
    };
    SearchResult {
        hit: position,
        url: string_or(hit.document.url, ""),
        title: string_or(hit.document.title, "Untitled"),
        snippet,
        base_url: string_or(hit.document.base_url, ""),
        language: string_or(hit.document.language, "unknown"),
        published_date,
        has_code,
        word_count: match hit.document.word_count {
            Some(n) => n,
            None => 0,
        },
    }
}

/// What is shown of those hits that `plan` keeps, in the order of the search.
pub open spec fn kept_results(plan: SearchPlan, hits: Seq<Hit>) -> Seq<ResultView>
    decreases hits.len(),
{
    if hits.len() == 0 {
        seq![]
    } else {
        let rest = kept_results(plan, hits.drop_last());
        if plan.keeps(hits.last().document) {
            rest.push(hits.last().shown(hits.len() - 1))
        } else {
            rest
        }
    }
}

/// What is shown for `hits`: the first of them that `plan` keeps, as many as it allows.
pub open spec fn results_of(plan: SearchPlan, hits: Seq<Hit>) -> Seq<ResultView> {
    let kept = kept_results(plan, hits);
    if kept.len() <= plan.limit {
        kept
    } else {
        kept.take(plan.limit as int)
    }
}

/// The results of a search. Every hit that the plan keeps must have something to show.
pub fn select_results(plan: &SearchPlan, hits: Vec<Hit>) -> (r: Vec<SearchResult>)
    requires
        forall|i: int|
            0 <= i < hits.len() && plan.keeps(#[trigger] hits@[i].document)
                ==> hits@[i].has_snippet(),
    ensures
        r@.map_values(|x: SearchResult| x@) == results_of(*plan, hits@),
{
    let ghost all = hits@;
    let total: usize = hits.len();
    let mut results: Vec<SearchResult> = Vec::new();
    let mut position: usize = 0;
    assert(all.take(0) == Seq::<Hit>::empty());
    for hit in it: hits
        invariant
            it.seq() == all,
            position == it.index(),
            all.len() == total,
            forall|i: int|
                0 <= i < all.len() && plan.keeps(#[trigger] all[i].document)
                    ==> all[i].has_snippet(),
            results@.map_values(|x: SearchResult| x@) == kept_results(*plan, all.take(it.index() as int)),
    {
        let ghost before = all.take(position as int);
        let ghost now = all.take(position + 1);
        assert(now.drop_last() == before);
        assert(now.last() == hit);
        if plan.accepts(&hit.document) {
            let ghost shown_before = results@;
            let result = show(hit, position);
            results.push(result);
            assert(results@.map_values(|x: SearchResult| x@) == shown_before.map_values(
                |x: SearchResult| x@,
            ).push(result@));
        }
        position = position + 1;
    }
    assert(all.take(all.len() as int) == all);
    let ghost kept = results@;
    results.truncate(plan.limit);
    assert(results@.map_values(|x: SearchResult| x@) == results_of(*plan, all));
    results
}

proof fn lemma_kept_results(plan: SearchPlan, hits: Seq<Hit>)
    ensures
        forall|k: int|
            0 <= k < kept_results(plan, hits).len() ==> {
                let r = #[trigger] kept_results(plan, hits)[k];
                0 <= r.hit < hits.len() && plan.keeps(hits[r.hit].document) && r
                    == hits[r.hit].shown(r.hit)
            },
        forall|j: int, k: int|
            0 <= j < k < kept_results(plan, hits).len() ==> (#[trigger] kept_results(
                plan,
                hits,
            )[j]).hit < (#[trigger] kept_results(plan, hits)[k]).hit,
        forall|i: int|
            0 <= i < hits.len() && plan.keeps((#[trigger] hits[i]).document) ==> exists|k: int|
                0 <= k < kept_results(plan, hits).len() && (#[trigger] kept_results(
                    plan,
                    hits,
                )[k]).hit == i,
    decreases hits.len(),
{
    if hits.len() > 0 {
        let front = hits.drop_last();
        let kept = kept_results(plan, hits);
        let rest = kept_results(plan, front);
        lemma_kept_results(plan, front);
        assert forall|k: int| 0 <= k < kept.len() implies {
            let r = #[trigger] kept[k];
            0 <= r.hit < hits.len() && plan.keeps(hits[r.hit].document) && r == hits[r.hit].shown(
                r.hit,
            )
        } by {
            if k < rest.len() {
                assert(kept[k] == rest[k]);
                assert(front[rest[k].hit] == hits[rest[k].hit]);
            }
        }
        assert forall|j: int, k: int| 0 <= j < k < kept.len() implies (#[trigger] kept[j]).hit < (
        #[trigger] kept[k]).hit by {
            assert(kept[j] == rest[j]);
            if k < rest.len() {
                assert(kept[k] == rest[k]);
            }
        }
        assert forall|i: int|
            0 <= i < hits.len() && plan.keeps((#[trigger] hits[i]).document) implies exists|k: int|
            0 <= k < kept.len() && (#[trigger] kept[k]).hit == i by {
            if i < front.len() {
                assert(front[i] == hits[i]);
                let k = choose|k: int| 0 <= k < rest.len() && (#[trigger] rest[k]).hit == i;
                assert(kept[k].hit == i);
            } else {
                assert(kept[kept.len() - 1].hit == i);
            }
        }
    }
}

/// What is shown are hits that meet every filter, in the order of the search and no more than the
/// plan allows; a hit that meets every filter is left out only behind as many others as are shown.
pub proof fn lemma_results_are_kept_hits(plan: SearchPlan, hits: Seq<Hit>)
    ensures
        results_of(plan, hits).len() <= plan.limit,
        forall|k: int|
            0 <= k < results_of(plan, hits).len() ==> {
                let r = #[trigger] results_of(plan, hits)[k];
                0 <= r.hit < hits.len() && plan.keeps(hits[r.hit].document) && r
                    == hits[r.hit].shown(r.hit)
            },
        forall|j: int, k: int|
            0 <= j < k < results_of(plan, hits).len() ==> (#[trigger] results_of(plan, hits)[j]).hit
                < (#[trigger] results_of(plan, hits)[k]).hit,
        forall|i: int|
            0 <= i < hits.len() && plan.keeps((#[trigger] hits[i]).document) ==> (exists|k: int|
                0 <= k < results_of(plan, hits).len() && (#[trigger] results_of(plan, hits)[k]).hit
                    == i) || (results_of(plan, hits).len() == plan.limit && forall|k: int|
                0 <= k < results_of(plan, hits).len() ==> (#[trigger] results_of(plan, hits)[k]).hit
                    < i),
{
    let kept = kept_results(plan, hits);
    let shown = results_of(plan, hits);
    lemma_kept_results(plan, hits);
    assert forall|k: int| 0 <= k < shown.len() implies #[trigger] shown[k] == kept[k] by {}
    assert forall|i: int|
        0 <= i < hits.len() && plan.keeps((#[trigger] hits[i]).document) implies (exists|k: int|
        0 <= k < shown.len() && (#[trigger] shown[k]).hit == i) || (shown.len() == plan.limit
        && forall|k: int| 0 <= k < shown.len() ==> (#[trigger] shown[k]).hit < i) by {
        let m = choose|m: int| 0 <= m < kept.len() && (#[trigger] kept[m]).hit == i;
        if m < shown.len() {
            assert(shown[m].hit == i);
        } else {
            assert forall|k: int| 0 <= k < shown.len() implies (#[trigger] shown[k]).hit < i by {
                assert(kept[k].hit < kept[m].hit);
            }
        }
    }
}

/// No request gets more than a hundred results, and three times as many hits are looked at as
/// results are wanted.
pub proof fn lemma_limits(limit: usize)
    ensures
        0 <= result_limit(limit) <= 100,
        result_limit(limit) <= limit,
        hit_limit(limit) == 3 * result_limit(limit),
{
}

/// A query without operators is searched for as it is, and nothing is filtered on its account.
pub proof fn lemma_plain_query(query: Seq<char>)
    requires
        !text::contains_text(query, "site:"@),
        !text::contains_text(query, "lang:"@),
        !text::contains_text(query, "has:code"@),
    ensures
        cleaned_query(query) == text::trimmed(query),
        operator_value(query, "site:"@) is None,
        operator_value(query, "lang:"@) is None,
        !asks_for_code(query),
{
}

/// An excerpt is the content, or the beginning of it that has two hundred bytes, with an ellipsis.
pub proof fn lemma_excerpt_is_beginning(content: Seq<char>)
    requires
        can_excerpt(content),
    ensures
        (excerpt_of(content) == content && encode_utf8(content).len() <= 200) || exists|n: int|
            0 <= n < content.len() && excerpt_of(content) == #[trigger] content.take(n) + "..."@
                && encode_utf8(content.take(n)).len() == 200,
{
    let bytes = encode_utf8(content);
    if bytes.len() > EXCERPT_BYTES {
        let n = EXCERPT_BYTES as int;
        encode_utf8_valid_utf8(content);
        encode_utf8_decode_utf8(content);
        valid_utf8_split(bytes, n);
        decode_utf8_split(bytes, n);
        let head = decode_utf8(bytes.take(n));
        let tail = decode_utf8(bytes.skip(n));
        assert(bytes.take(n) == bytes.subrange(0, n));
        assert(bytes.skip(n) == bytes.subrange(n, bytes.len() as int));
        assert(content == head + tail);
        assert(tail.len() > 0);
        assert(content.take(head.len() as int) == head);
        decode_utf8_encode_utf8(bytes.take(n));
    }
}

/// What each filter keeps. The site may stand anywhere in the domain of a page; the language must be
/// that of the page, which is unknown where none is stored; a page that says nothing of code has
/// none; and a date must not come before the first day or after the last, but a page without a date
/// is kept.
pub proof fn lemma_filters(plan: SearchPlan, doc: StoredDocument)
    ensures
        plan.keeps(doc) <==> {
            &&& plan.site matches Some(site) ==> exists|a: Seq<char>, b: Seq<char>|
                (match doc.base_url {
                    Some(u) => u@,
                    None => Seq::<char>::empty(),
                }) == #[trigger] (a + site@ + b)
            &&& plan.lang matches Some(lang) ==> match doc.language {
                Some(l) => l@ == lang@,
                None => lang@ == "unknown"@,
            }
            &&& plan.code_only ==> (doc.has_code matches Some(b) && b)
            &&& (plan.date_from matches Some(from) ==> match doc.published_date {
                Some(d) => d@.len() == 0 || from@ == d@ || text::lex_lt(from@, d@),
                None => true,
            })
            &&& (plan.date_to matches Some(to) ==> match doc.published_date {
                Some(d) => d@.len() == 0 || to@ == d@ || text::lex_lt(d@, to@),
                None => true,
            })
        },
{
    reveal_strlit("");
    assert(""@ == Seq::<char>::empty());
    if let Some(site) = plan.site {
        text::lemma_contains_text(doc.base_url_text(), site@);
    }
    if let Some(d) = doc.published_date {
        if let Some(from) = plan.date_from {
            text::lemma_lex_total(from@, d@);
            text::lemma_lex_asymmetric(from@, d@);
            text::lemma_lex_irreflexive(d@);
        }
        if let Some(to) = plan.date_to {
            text::lemma_lex_total(to@, d@);
            text::lemma_lex_asymmetric(to@, d@);
            text::lemma_lex_irreflexive(d@);
        }
    }
}

/// A plan that asks for nothing but a site keeps every page whose domain is the site or lies below
/// it, and every other page in whose domain the site stands. A plan that asks for nothing keeps
/// every page.
pub proof fn lemma_site_filter(plan: SearchPlan, doc: StoredDocument, a: Seq<char>, b: Seq<char>)
    requires
        plan.lang is None,
        !plan.code_only,
        plan.date_from is None,
        plan.date_to is None,
        doc.base_url is Some,
    ensures
        plan.site matches Some(site) ==> (doc.base_url->0@ == a + site@ + b ==> plan.keeps(doc)),
        plan.site matches Some(site) ==> (urls::same_site(doc.base_url->0@, site@) ==> plan.keeps(
            doc,
        )),
        plan.site is None ==> plan.keeps(doc),
{
    if let Some(site) = plan.site {
        let base = doc.base_url->0@;
        text::lemma_contains_text(base, site@);
        if urls::same_site(base, site@) {
            lemma_below_holds_site(base, site@);
        }
        assert(plan.keeps(doc) == text::contains_text(base, site@));
    }
}

proof fn lemma_below_holds_site(base: Seq<char>, site: Seq<char>)
    requires
        urls::same_site(base, site),
    ensures
        text::contains_text(base, site),
{
    let none = Seq::<char>::empty();
    urls::lemma_same_site_is(base, site);
    text::lemma_contains_text(base, site);
    if base == site {
        assert(base == none + site + none);
    } else {
        let p = choose|p: Seq<char>| base == #[trigger] (p + seq!['.'] + site);
        assert(base == (p + seq!['.']) + site + none);
    }
}

/// Blanks part `before` and `after` from what stands between them.
spec fn parted(before: Seq<char>, after: Seq<char>) -> bool {
    &&& before.len() > 0 ==> before.last() == ' '
    &&& after.len() > 0 ==> after[0] == ' '
}

proof fn lemma_stands_in_one_part(
    a: Seq<char>,
    m: Seq<char>,
    b: Seq<char>,
    pat: Seq<char>,
    i: int,
)
    requires
        parted(a, b),
        pat.len() > 0,
        !pat.contains(' '),
        text::occurs_at(a + m + b, pat, i),
    ensures
        (i + pat.len() <= a.len() && text::occurs_at(a, pat, i)) || (i >= a.len() && i + pat.len()
            <= a.len() + m.len() && text::occurs_at(m, pat, i - a.len())) || (i >= a.len() + m.len()
            && text::occurs_at(b, pat, i - a.len() - m.len())),
{
    let q = a + m + b;
    let sub = q.subrange(i, i + pat.len());
    assert(sub == pat);
    if i < a.len() && i + pat.len() > a.len() {
        let k = a.len() - 1;
        assert(q[k] == a.last());
        assert(sub[k - i] == q[k]);
        assert(pat[k - i] == ' ');
    }
    if i < a.len() + m.len() && i + pat.len() > a.len() + m.len() {
        let k = (a.len() + m.len()) as int;
        assert(q[k] == b[0]);
        assert(sub[k - i] == q[k]);
        assert(pat[k - i] == ' ');
    }
    if i + pat.len() <= a.len() {
        assert(a.subrange(i, i + pat.len()) == sub);
    } else if i + pat.len() <= a.len() + m.len() {
        assert(m.subrange(i - a.len(), i - a.len() + pat.len()) == sub);
    } else {
        let at = i - a.len() - m.len();
        assert(b.subrange(at, at + pat.len()) == sub);
    }
}

proof fn lemma_stands_in_whole(a: Seq<char>, m: Seq<char>, b: Seq<char>, pat: Seq<char>, i: int)
    ensures
        text::occurs_at(a, pat, i) ==> text::occurs_at(a + m + b, pat, i),
        text::occurs_at(m, pat, i) ==> text::occurs_at(a + m + b, pat, i + a.len()),
        text::occurs_at(b, pat, i) ==> text::occurs_at(a + m + b, pat, i + a.len() + m.len()),
{
    let q = a + m + b;
    if text::occurs_at(a, pat, i) {
        assert(q.subrange(i, i + pat.len()) == a.subrange(i, i + pat.len()));
    }
    if text::occurs_at(m, pat, i) {
        assert(q.subrange(i + a.len(), i + a.len() + pat.len()) == m.subrange(i, i + pat.len()));
    }
    if text::occurs_at(b, pat, i) {
        let at = i + a.len() + m.len();
        assert(q.subrange(at, at + pat.len()) == b.subrange(i, i + pat.len()));
    }
}

proof fn lemma_contains_parts(a: Seq<char>, m: Seq<char>, b: Seq<char>, pat: Seq<char>)
    requires
        parted(a, b),
        pat.len() > 0,
        !pat.contains(' '),
    ensures
        text::contains_text(a + m + b, pat) <==> text::contains_text(a, pat) || text::contains_text(
            m,
            pat,
        ) || text::contains_text(b, pat),
{
    if text::contains_text(a + m + b, pat) {
        let i = choose|i: int| text::occurs_at(a + m + b, pat, i);
        lemma_stands_in_one_part(a, m, b, pat, i);
    }
    if text::contains_text(a, pat) {
        let i = choose|i: int| text::occurs_at(a, pat, i);
        lemma_stands_in_whole(a, m, b, pat, i);
    }
    if text::contains_text(m, pat) {
        let i = choose|i: int| text::occurs_at(m, pat, i);
        lemma_stands_in_whole(a, m, b, pat, i);
    }
    if text::contains_text(b, pat) {
        let i = choose|i: int| text::occurs_at(b, pat, i);
        lemma_stands_in_whole(a, m, b, pat, i);
    }
}

proof fn lemma_position_is(s: Seq<char>, pat: Seq<char>, i: int)
    requires
        text::first_at(s, pat, i),
    ensures
        text::position(s, pat) == Some(i),
{
    let p = choose|p: int| text::first_at(s, pat, p);
    assert(text::first_at(s, pat, p));
    assert(!(p < i) && !(i < p));
}

proof fn lemma_before_char_stays(r: Seq<char>, t: Seq<char>, c: char)
    requires
        r.contains(c),
    ensures
        text::before_char(r + t, c) == text::before_char(r, c),
    decreases r.len(),
{
    if r[0] != c {
        let rest = r.drop_first();
        let k = choose|k: int| 0 <= k < r.len() && r[k] == c;
        assert(rest[k - 1] == c);
        lemma_before_char_stays(rest, t, c);
        assert((r + t).drop_first() == rest + t);
        assert(text::before_char(r + t, c) == seq![r[0]] + text::before_char(rest + t, c)) by {
            text::lemma_before_char(rest + t, c);
        }
        assert(text::before_char(r, c) == seq![r[0]] + text::before_char(rest, c)) by {
            text::lemma_before_char(rest, c);
        }
    } else {
        assert(text::before_char(r + t, c) == text::before_char(r, c));
    }
}

proof fn lemma_value_parts(a: Seq<char>, m: Seq<char>, b: Seq<char>, op: Seq<char>)
    requires
        parted(a, b),
        op.len() > 0,
        !op.contains(' '),
        !text::contains_text(m, op),
    ensures
        operator_value(a + m + b, op) == if text::contains_text(a, op) {
            operator_value(a, op)
        } else {
            operator_value(b, op)
        },
{
    let q = a + m + b;
    lemma_contains_parts(a, m, b, op);
    if text::contains_text(a, op) {
        text::lemma_position(a, op);
        let j = text::position(a, op)->0;
        let w = choose|i: int| text::occurs_at(a, op, i);
        text::lemma_first_exists(a, op, w);
        assert(text::first_at(a, op, j));
        lemma_stands_in_whole(a, m, b, op, j);
        assert forall|k: int| 0 <= k < j implies !text::occurs_at(q, op, k) by {
            if text::occurs_at(q, op, k) {
                lemma_stands_in_one_part(a, m, b, op, k);
            }
        }
        lemma_position_is(q, op, j);
        let end = j + op.len();
        let rest = a.skip(end);
        if end == a.len() {
            assert(a.subrange(j, end)[op.len() - 1] == a[end - 1]);
            assert(op[op.len() - 1] == ' ');
        }
        assert(rest[rest.len() - 1] == ' ');
        assert(rest.contains(' '));
        assert(q.skip(end) == rest + (m + b));
        lemma_before_char_stays(rest, m + b, ' ');
    } else if text::contains_text(b, op) {
        let w = choose|i: int| text::occurs_at(b, op, i);
        text::lemma_first_exists(b, op, w);
        let j = text::position(b, op)->0;
        assert(text::first_at(b, op, j));
        lemma_stands_in_whole(a, m, b, op, j);
        let i = j + a.len() + m.len();
        assert forall|k: int| 0 <= k < i implies !text::occurs_at(q, op, k) by {
            if text::occurs_at(q, op, k) {
                lemma_stands_in_one_part(a, m, b, op, k);
            }
        }
        lemma_position_is(q, op, i);
        assert(q.skip(i + op.len()) == b.skip(j + op.len()));
    }
}

/// The value of an operator is what stands behind its first mention, up to the next blank or to the
/// end of the query; a query that does not hold the operator has none.
pub proof fn lemma_operator_value(
    a: Seq<char>,
    op: Seq<char>,
    value: Seq<char>,
    b: Seq<char>,
    other: Seq<char>,
)
    requires
        !value.contains(' '),
        b.len() > 0 ==> b[0] == ' ',
        forall|x: Seq<char>, y: Seq<char>|
            a + op + value + b == #[trigger] (x + op + y) ==> a.len() <= x.len(),
    ensures
        operator_value(a + op + value + b, op) == Some(value),
        (forall|x: Seq<char>, y: Seq<char>| other != #[trigger] (x + op + y)) ==> operator_value(
            other,
            op,
        ) is None,
{
    let q = a + op + value + b;
    text::lemma_contains_text(other, op);
    assert(q == a + op + (value + b));
    text::lemma_position(q, op);
    let i = text::position(q, op)->0;
    assert(i == a.len());
    assert(q.skip((a.len() + op.len()) as int) == value + b);
    if b.len() > 0 {
        assert(value + b == value + seq![' '] + b.drop_first());
        text::lemma_before_char_is(value, ' ', b.drop_first());
    } else {
        assert(value + b == value);
        text::lemma_before_char_is(value, ' ', b);
    }
}

proof fn lemma_operator_cut(a: Seq<char>, op: Seq<char>, value: Seq<char>, b: Seq<char>)
    requires
        parted(a, b),
        op.len() > 0,
        !op.contains(' '),
        !value.contains(' '),
        !text::contains_text(a, op),
        !text::contains_text(b, op),
    ensures
        operator_value(a + op + value + b, op) == Some(value),
        without_operator(a + op + value + b, op, Some(value)) == a + b,
        operator_value(a + b, op) is None,
{
    let m = op + value;
    let q = a + op + value + b;
    assert(q == a + m + b);
    assert forall|x: Seq<char>, y: Seq<char>| q == #[trigger] (x + op + y) implies a.len()
        <= x.len() by {
        assert(q.subrange(x.len() as int, (x.len() + op.len()) as int) == op);
        lemma_stands_in_one_part(a, m, b, op, x.len() as int);
    }
    lemma_operator_value(a, op, value, b, q);
    assert forall|x: Seq<char>, y: Seq<char>| a + m + b == #[trigger] (x + m + y) implies a.len()
        <= x.len() by {
        assert(x + m + y == x + op + (value + y));
    }
    text::lemma_without_all(a, m, b);
    assert forall|x: Seq<char>, y: Seq<char>| b != #[trigger] (x + m + y) by {
        if b == x + m + y {
            assert(b == x + op + (value + y));
            text::lemma_contains_text(b, op);
        }
    }
    text::lemma_without_none(b, m);
    let none = Seq::<char>::empty();
    lemma_contains_parts(a, none, b, op);
    assert(a + none + b == a + b);
    if text::contains_text(none, op) {
        let i = choose|i: int| text::occurs_at(none, op, i);
        assert(i + op.len() <= 0);
    }
}

proof fn lemma_others_unmoved(a: Seq<char>, m: Seq<char>, b: Seq<char>, op: Seq<char>)
    requires
        parted(a, b),
        op.len() > 0,
        !op.contains(' '),
        !text::contains_text(m, op),
    ensures
        operator_value(a + m + b, op) == operator_value(a + b, op),
        text::contains_text(a + m + b, op) == text::contains_text(a + b, op),
{
    let none = Seq::<char>::empty();
    assert(!text::contains_text(none, op)) by {
        if text::contains_text(none, op) {
            let i = choose|i: int| text::occurs_at(none, op, i);
            assert(i + op.len() <= 0);
        }
    }
    assert(a + none + b == a + b);
    lemma_value_parts(a, m, b, op);
    lemma_value_parts(a, none, b, op);
    lemma_contains_parts(a, m, b, op);
    lemma_contains_parts(a, none, b, op);
}

proof fn lemma_operators_hold_no_blank()
    ensures
        "site:"@.len() > 0 && !"site:"@.contains(' '),
        "lang:"@.len() > 0 && !"lang:"@.contains(' '),
        "has:code"@.len() > 0 && !"has:code"@.contains(' '),
{
    reveal_strlit("site:");
    reveal_strlit("lang:");
    reveal_strlit("has:code");
}

/// A site among the words of a query is what the search is held to. The words that are searched for,
/// the language and the wish for code are those of the query without it.
pub proof fn lemma_site_operator(a: Seq<char>, site: Seq<char>, b: Seq<char>)
    requires
        a.len() > 0 ==> a.last() == ' ',
        b.len() > 0 ==> b[0] == ' ',
        !site.contains(' '),
        !text::contains_text(a, "site:"@),
        !text::contains_text(b, "site:"@),
        !text::contains_text("site:"@ + site, "lang:"@),
        !text::contains_text("site:"@ + site, "has:code"@),
    ensures
        operator_value(a + "site:"@ + site + b, "site:"@) == Some(site),
        operator_value(a + b, "site:"@) is None,
        cleaned_query(a + "site:"@ + site + b) == cleaned_query(a + b),
        operator_value(a + "site:"@ + site + b, "lang:"@) == operator_value(a + b, "lang:"@),
        asks_for_code(a + "site:"@ + site + b) == asks_for_code(a + b),
{
    lemma_operators_hold_no_blank();
    let m = "site:"@ + site;
    lemma_operator_cut(a, "site:"@, site, b);
    assert(a + "site:"@ + site + b == a + m + b);
    lemma_others_unmoved(a, m, b, "lang:"@);
    lemma_others_unmoved(a, m, b, "has:code"@);
}

/// A language among the words of a query is what the search is held to. The words that are searched
/// for and the wish for code are those of the query without it.
pub proof fn lemma_lang_operator(a: Seq<char>, lang: Seq<char>, b: Seq<char>)
    requires
        a.len() > 0 ==> a.last() == ' ',
        b.len() > 0 ==> b[0] == ' ',
        !lang.contains(' '),
        !text::contains_text(a, "lang:"@),
        !text::contains_text(b, "lang:"@),
        !text::contains_text(a, "site:"@),
        !text::contains_text(b, "site:"@),
        !text::contains_text("lang:"@ + lang, "site:"@),
        !text::contains_text("lang:"@ + lang, "has:code"@),
    ensures
        operator_value(a + "lang:"@ + lang + b, "lang:"@) == Some(lang),
        operator_value(a + b, "lang:"@) is None,
        cleaned_query(a + "lang:"@ + lang + b) == cleaned_query(a + b),
        operator_value(a + "lang:"@ + lang + b, "site:"@) is None,
        asks_for_code(a + "lang:"@ + lang + b) == asks_for_code(a + b),
{
    lemma_operators_hold_no_blank();
    let m = "lang:"@ + lang;
    lemma_operator_cut(a, "lang:"@, lang, b);
    assert(a + "lang:"@ + lang + b == a + m + b);
    lemma_others_unmoved(a, m, b, "site:"@);
    lemma_others_unmoved(a, m, b, "has:code"@);
    lemma_contains_parts(a, m, b, "site:"@);
}

proof fn lemma_code_is_another_operator()
    ensures
        !text::contains_text("has:code"@, "site:"@),
        !text::contains_text("has:code"@, "lang:"@),
{
    reveal_strlit("site:");
    reveal_strlit("lang:");
    reveal_strlit("has:code");
    let m = "has:code"@;
    if text::contains_text(m, "site:"@) {
        let i = choose|i: int| text::occurs_at(m, "site:"@, i);
        assert(m.subrange(i, i + 5)[1] == m[i + 1]);
        assert("site:"@[1] == 'i');
    }
    if text::contains_text(m, "lang:"@) {
        let i = choose|i: int| text::occurs_at(m, "lang:"@, i);
        assert(m.subrange(i, i + 5)[0] == m[i]);
        assert("lang:"@[0] == 'l');
    }
}

/// A wish for code among the words of a query is followed and not searched for.
pub proof fn lemma_code_operator(a: Seq<char>, b: Seq<char>)
    requires
        a.len() > 0 ==> a.last() == ' ',
        b.len() > 0 ==> b[0] == ' ',
        !text::contains_text(a, "has:code"@),
        !text::contains_text(b, "has:code"@),
        !text::contains_text(a, "lang:"@),
        !text::contains_text(b, "lang:"@),
        !text::contains_text(a, "site:"@),
        !text::contains_text(b, "site:"@),
    ensures
        asks_for_code(a + "has:code"@ + b),
        !asks_for_code(a + b),
        cleaned_query(a + "has:code"@ + b) == text::trimmed(a + b),
        cleaned_query(a + b) == text::trimmed(a + b),
        operator_value(a + "has:code"@ + b, "site:"@) is None,
        operator_value(a + "has:code"@ + b, "lang:"@) is None,
{
    lemma_operators_hold_no_blank();
    let m = "has:code"@;
    let none = Seq::<char>::empty();
    let q = a + m + b;
    lemma_operator_cut(a, m, none, b);
    assert(a + m + none + b == q);
    assert(m + none == m);
    text::lemma_contains_text(q, m);
    lemma_code_is_another_operator();
    lemma_contains_parts(a, m, b, "site:"@);
    lemma_contains_parts(a, m, b, "lang:"@);
    lemma_others_unmoved(a, m, b, "site:"@);
    lemma_others_unmoved(a, m, b, "lang:"@);
}

/// What is planned for a request: the site and the language that its query asks for, unless the
/// request names a language itself; code where either asks for it; its dates as they are; and as
/// many results as it asks for, up to a hundred, with three hits looked at for each.
pub proof fn lemma_plan(plan: SearchPlan, params: SearchQuery)
    requires
        plans(plan, params),
    ensures
        plan.query@ == cleaned_query(params.q@),
        plan.site.deep_view() == operator_value(params.q@, "site:"@),
        params.lang matches Some(lang) ==> plan.lang.deep_view() == Some(lang@),
        params.lang is None ==> plan.lang.deep_view() == operator_value(params.q@, "lang:"@),
        params.code_only ==> plan.code_only,
        !params.code_only ==> (plan.code_only <==> exists|a: Seq<char>, b: Seq<char>|
            params.q@ == #[trigger] (a + "has:code"@ + b)),
        plan.date_from.deep_view() == params.date_from.deep_view(),
        plan.date_to.deep_view() == params.date_to.deep_view(),
        params.limit <= 100 ==> plan.limit == params.limit,
        params.limit > 100 ==> plan.limit == 100,
        plan.search_limit == 3 * plan.limit,
{
    text::lemma_contains_text(params.q@, "has:code"@);
}

/// What is shown of a hit: what is stored of it, with an empty address and domain, the title
/// "Untitled", an unknown language and no words where these are not stored; no date where it is
/// empty; the passage that was found as it is marked up, and the beginning of the content where none
/// was found or it is empty.
pub proof fn lemma_shown(hit: Hit, position: int)
    ensures
        hit.shown(position).hit == position,
        hit.shown(position).url == match hit.document.url {
            Some(v) => v@,
            None => Seq::<char>::empty(),
        },
        hit.shown(position).title == match hit.document.title {
            Some(v) => v@,
            None => "Untitled"@,
        },
        hit.shown(position).base_url == match hit.document.base_url {
            Some(v) => v@,
            None => Seq::<char>::empty(),
        },
        hit.shown(position).language == match hit.document.language {
            Some(v) => v@,
            None => "unknown"@,
        },
        hit.document.published_date matches Some(d) ==> d@.len() > 0 ==> hit.shown(
            position,
        ).published_date == Some(d@),
        hit.document.published_date matches Some(d) ==> d@.len() == 0 ==> hit.shown(
            position,
        ).published_date is None,
        hit.document.published_date is None ==> hit.shown(position).published_date is None,
        hit.shown(position).has_code <==> (hit.document.has_code matches Some(b) && b),
        hit.document.word_count matches Some(n) ==> hit.shown(position).word_count == n,
        hit.document.word_count is None ==> hit.shown(position).word_count == 0,
        hit.passage matches Some(p) ==> p.fragment@.len() > 0 ==> hit.shown(position).snippet
            == p.html@,
        hit.passage matches Some(p) ==> p.fragment@.len() == 0 ==> hit.shown(position).snippet
            == excerpt_of(
            match hit.document.content {
                Some(v) => v@,
                None => Seq::<char>::empty(),
            },
        ),
        hit.passage is None ==> hit.shown(position).snippet == excerpt_of(
            match hit.document.content {
                Some(v) => v@,
                None => Seq::<char>::empty(),
            },
        ),
        hit.has_snippet() <==> (hit.passage matches Some(p) && p.fragment@.len() > 0)
            || can_excerpt(
            match hit.document.content {
                Some(v) => v@,
                None => Seq::<char>::empty(),
            },
        ),
{
    reveal_strlit("");
    assert(""@ == Seq::<char>::empty());
}

/// A result holds what is shown of its hit.
pub proof fn lemma_result_view(r: SearchResult)
    ensures
        r@.hit == r.hit && r@.url == r.url@ && r@.title == r.title@ && r@.snippet == r.snippet@
            && r@.base_url == r.base_url@ && r@.language == r.language@ && r@.has_code == r.has_code
            && r@.word_count == r.word_count,
        r.published_date matches Some(d) ==> r@.published_date == Some(d@),
        r.published_date is None ==> r@.published_date is None,
{
}

proof fn lemma_encoded_parts(a: Seq<char>, b: Seq<char>)
    ensures
        encode_utf8(a + b) == encode_utf8(a) + encode_utf8(b),
        is_char_boundary(encode_utf8(a + b), encode_utf8(a).len() as int),
    decreases a.len(),
{
    let whole = a + b;
    encode_utf8_valid_utf8(whole);
    if a.len() == 0 {
        assert(whole == b);
        assert(encode_utf8(a) + encode_utf8(b) == encode_utf8(b));
    } else {
        let rest = a.drop_first();
        lemma_encoded_parts(rest, b);
        assert(whole.drop_first() == rest + b);
        encode_utf8_first_scalar(whole);
        encode_utf8_first_scalar(a);
        assert(encode_utf8(whole) == encode_utf8(a) + encode_utf8(b));
        assert(pop_first_scalar(encode_utf8(whole)) == encode_utf8(rest + b));
        assert(encode_utf8(a).len() - length_of_first_scalar(encode_utf8(whole)) == encode_utf8(
            rest,
        ).len());
    }
}

/// A content of no more than two hundred bytes is its own excerpt. Of a longer one the excerpt is the
/// beginning that has two hundred bytes, with an ellipsis; it can be cut where a character ends
/// there.
pub proof fn lemma_excerpt(head: Seq<char>, tail: Seq<char>)
    requires
        encode_utf8(head).len() == 200,
        tail.len() > 0,
    ensures
        can_excerpt(head + tail),
        excerpt_of(head + tail) == head + "..."@,
        forall|content: Seq<char>| #[trigger]
            encode_utf8(content).len() <= 200 ==> can_excerpt(content) && excerpt_of(content)
                == content,
{
    let bytes = encode_utf8(head + tail);
    encode_utf8_decode_utf8(head);
    lemma_encoded_parts(head, tail);
    assert(encode_utf8(tail).len() > 0);
    assert(bytes.take(200) == encode_utf8(head));
}

/// An operator and its value are removed wherever both stand together: the first time, and then in
/// what follows. A query that does not hold them stays as it is.
pub proof fn lemma_operator_is_removed(
    a: Seq<char>,
    op: Seq<char>,
    value: Seq<char>,
    b: Seq<char>,
    query: Seq<char>,
)
    requires
        op.len() > 0,
        forall|x: Seq<char>, y: Seq<char>|
            a + (op + value) + b == #[trigger] (x + (op + value) + y) ==> a.len() <= x.len(),
    ensures
        without_operator(a + (op + value) + b, op, Some(value)) == a + without_operator(
            b,
            op,
            Some(value),
        ),
        (forall|x: Seq<char>, y: Seq<char>| query != #[trigger] (x + (op + value) + y))
            ==> without_operator(query, op, Some(value)) == query,
        without_operator(query, op, None) == query,
{
    text::lemma_without_all(a, op + value, b);
    if forall|x: Seq<char>, y: Seq<char>| query != #[trigger] (x + (op + value) + y) {
        text::lemma_without_none(query, op + value);
    }
}

/// What is searched for is the query without its site, its language and its wish for code, wherever
/// they stand in it, and without white space at either end.
pub proof fn lemma_cleaned_query(query: Seq<char>)
    ensures
        cleaned_query(query) == text::trimmed(
            {
                let rest = without_operator(query, "site:"@, operator_value(query, "site:"@));
                let words = without_operator(rest, "lang:"@, operator_value(query, "lang:"@));
                if exists|a: Seq<char>, b: Seq<char>| query == #[trigger] (a + "has:code"@ + b) {
                    without_operator(words, "has:code"@, Some(Seq::<char>::empty()))
                } else {
                    words
                }
            },
        ),
{
    text::lemma_contains_text(query, "has:code"@);
    assert("has:code"@ + Seq::<char>::empty() == "has:code"@);
}

} // verus!
