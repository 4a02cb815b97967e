use flooglyflup::search::{self, Hit, Passage, SearchError, SearchPlan, SearchQuery, StoredDocument};

fn some(s: &str) -> Option<String> {
    Some(s.to_string())
}

fn query(q: &str) -> SearchQuery {
    SearchQuery {
        q: q.to_string(),
        limit: search::default_limit(),
        lang: None,
        date_from: None,
        date_to: None,
        code_only: false,
    }
}

fn plan(q: SearchQuery) -> SearchPlan {
    search::plan_search(q).unwrap_or_else(|_| panic!("refused"))
}

fn stored(base_url: &str, language: &str, date: &str, has_code: bool) -> StoredDocument {
    StoredDocument {
        url: some("https://example.com/x"),
        title: some("Title"),
        content: some("content"),
        base_url: some(base_url),
        language: some(language),
        published_date: some(date),
        has_code: Some(has_code),
        word_count: Some(7),
    }
}

fn nothing() -> StoredDocument {
    StoredDocument {
        url: None,
        title: None,
        content: None,
        base_url: None,
        language: None,
        published_date: None,
        has_code: None,
        word_count: None,
    }
}

#[test]
fn operators_are_taken_out_of_the_query() {
    let (cleaned, site, lang, code) = search::parse_search_operators("rust site:docs.rs async lang:en has:code");
    assert_eq!(cleaned, "rust  async");
    assert_eq!(site, some("docs.rs"));
    assert_eq!(lang, some("en"));
    assert!(code);
    let (cleaned, site, lang, code) = search::parse_search_operators("  plain query ");
    assert_eq!((cleaned.as_str(), site, lang, code), ("plain query", None, None, false));
    let (cleaned, site, _, _) = search::parse_search_operators("site:a.org x site:a.org site:b.org");
    assert_eq!(cleaned, "x  site:b.org");
    assert_eq!(site, some("a.org"));
    let (cleaned, site, _, _) = search::parse_search_operators("x site:");
    assert_eq!(cleaned, "x");
    assert_eq!(site, some(""));
    let (cleaned, site, lang, _) = search::parse_search_operators("site:lang:en y");
    assert_eq!(cleaned, "y");
    assert_eq!(site, some("lang:en"));
    assert_eq!(lang, some("en"));
}

#[test]
fn blank_queries_are_refused() {
    assert!(matches!(search::plan_search(query(" \t")), Err(SearchError::EmptyQuery)));
    assert_eq!(SearchError::EmptyQuery.message(), "Query cannot be empty");
    assert_eq!(plan(query("site:a.org")).query, "");
}

#[test]
fn requests_are_limited() {
    let mut q = query("x");
    q.limit = 1000;
    let p = plan(q);
    assert_eq!((p.limit, p.search_limit), (100, 300));
    let p = plan(query("x"));
    assert_eq!((p.limit, p.search_limit), (10, 30));
    let mut q = query("x");
    q.limit = 0;
    let p = plan(q);
    assert_eq!((p.limit, p.search_limit), (0, 0));
}

#[test]
fn parameters_go_before_operators() {
    let mut q = query("x lang:en");
    q.lang = some("de");
    assert_eq!(plan(q).lang, some("de"));
    assert_eq!(plan(query("x lang:en")).lang, some("en"));
    let mut q = query("x");
    q.code_only = true;
    assert!(plan(q).code_only);
    assert!(plan(query("x has:code")).code_only);
    assert!(!plan(query("x")).code_only);
}

#[test]
fn filters_drop_hits() {
    let doc = stored("docs.rs", "en", "2024-05-06", false);
    assert!(plan(query("x site:docs")).accepts(&doc));
    assert!(!plan(query("x site:a.org")).accepts(&doc));
    assert!(plan(query("x lang:en")).accepts(&doc));
    assert!(!plan(query("x lang:e")).accepts(&doc));
    assert!(!plan(query("x has:code")).accepts(&doc));
    assert!(plan(query("x has:code")).accepts(&stored("docs.rs", "en", "", true)));
    assert!(plan(query("x lang:unknown site:")).accepts(&nothing()));
    assert!(!plan(query("x has:code")).accepts(&nothing()));
}

#[test]
fn dates_are_compared_as_texts() {
    let between = |from: Option<&str>, to: Option<&str>, date: &str| {
        let mut q = query("x");
        q.date_from = from.map(|d| d.to_string());
        q.date_to = to.map(|d| d.to_string());
        plan(q).accepts(&stored("", "", date, false))
    };
    assert!(between(Some("2024-05-06"), Some("2024-05-06"), "2024-05-06"));
    assert!(!between(Some("2024-05-07"), None, "2024-05-06"));
    assert!(!between(None, Some("2024-05-05"), "2024-05-06"));
    assert!(between(Some("2030-01-01"), Some("2000-01-01"), ""));
}

#[test]
fn excerpts_are_cut_at_two_hundred_bytes() {
    assert_eq!(search::excerpt("short"), "short");
    assert_eq!(search::excerpt(&"x".repeat(200)), "x".repeat(200));
    assert_eq!(search::excerpt(&"x".repeat(201)), format!("{}...", "x".repeat(200)));
    let umlauts = "ä".repeat(150);
    assert!(search::excerpt_fits(&umlauts));
    assert_eq!(search::excerpt(&umlauts), format!("{}...", "ä".repeat(100)));
    assert!(!search::excerpt_fits(&format!("x{umlauts}")));
    assert!(search::excerpt_fits(&format!("x{}", "ä".repeat(99))));
}

fn hit(document: StoredDocument, passage: Option<(&str, &str)>) -> Hit {
    Hit {
        document,
        passage: passage.map(|(fragment, html)| Passage { fragment: fragment.to_string(), html: html.to_string() }),
    }
}

#[test]
fn hits_are_shown() {
    let hits = vec![
        hit(stored("a.org", "en", "", true), Some(("frag", "<b>frag</b>"))),
        hit(stored("b.org", "de", "2024-01-01", false), None),
        hit(nothing(), Some(("", "<b></b>"))),
    ];
    assert!(hits.iter().all(|h| h.snippet_fits()));
    let results = search::select_results(&plan(query("x")), hits);
    assert_eq!(results.len(), 3);
    assert_eq!(results[0].snippet, "<b>frag</b>");
    assert_eq!(results[0].published_date, None);
    assert!(results[0].has_code);
    assert_eq!(results[0].word_count, 7);
    assert_eq!(results[1].snippet, "content");
    assert_eq!(results[1].published_date, some("2024-01-01"));
    assert_eq!(results[1].base_url, "b.org");
    assert_eq!(results[2].url, "");
    assert_eq!(results[2].title, "Untitled");
    assert_eq!(results[2].language, "unknown");
    assert_eq!(results[2].snippet, "");
    assert_eq!(results[2].word_count, 0);
    assert_eq!(results.iter().map(|r| r.hit).collect::<Vec<_>>(), vec![0, 1, 2]);
}

#[test]
fn hits_that_are_kept_are_shown_up_to_the_limit() {
    let hits = |n: usize| -> Vec<Hit> {
        (0..n).map(|i| hit(stored("", if i % 2 == 0 { "en" } else { "de" }, "", false), None)).collect()
    };
    let mut q = query("x lang:en");
    q.limit = 2;
    let p = plan(q);
    let shown: Vec<usize> = search::select_results(&p, hits(9)).iter().map(|r| r.hit).collect();
    assert_eq!(shown, vec![0, 2]);
    let shown: Vec<usize> = search::select_results(&p, hits(2)).iter().map(|r| r.hit).collect();
    assert_eq!(shown, vec![0]);
}

#[test]
fn content_that_cannot_be_cut_does_not_fit() {
    let mut doc = nothing();
    doc.content = Some(format!("x{}", "ä".repeat(150)));
    assert!(!hit(doc, None).snippet_fits());
    let mut doc = nothing();
    doc.content = Some(format!("x{}", "ä".repeat(150)));
    assert!(hit(doc, Some(("f", "f"))).snippet_fits());
}
