use flooglyflup::document;
use flooglyflup::quality::{DomainLists, DomainQuality};

fn lists() -> DomainLists {
    DomainLists::parse("good.org\n", "bad.org\n")
}

#[test]
fn a_page_is_described() {
    let html = "<html><head><title> A <b>title\n</title><meta name='date' content='2024-01-02'></head>
        <body><h1>The  heading</h1><p>Some text about an algorithm for the<i>search</i> of things.</p>
        <pre>code</pre></body></html>";
    let doc = document::process_page("https://www.good.org/x", html, &lists());
    assert_eq!(doc.url, "https://www.good.org/x");
    assert_eq!(doc.title, "A <b>title");
    assert_eq!(doc.content, "The heading Some text about an algorithm for the search of things. code");
    assert_eq!(doc.base_url, "www.good.org");
    assert_eq!(doc.language, "en");
    assert_eq!(doc.published_date, Some("2024-01-02".to_string()));
    assert_eq!(doc.domain_quality, DomainQuality::High);
    assert_eq!(doc.content_quality, 675);
    assert!(doc.has_code);
    assert_eq!(doc.word_count, 13);
}

#[test]
fn an_empty_page_is_known_by_its_address() {
    let doc = document::process_page(" not a url ", "", &lists());
    assert_eq!(doc.url, " not a url ");
    assert_eq!(doc.title, "not a url");
    assert_eq!(doc.content, "");
    assert_eq!(doc.base_url, " not a url ");
    assert_eq!(doc.language, "unknown");
    assert_eq!(doc.published_date, None);
    assert_eq!(doc.domain_quality, DomainQuality::Neutral);
    assert_eq!(doc.content_quality, 500);
    assert!(!doc.has_code);
    assert_eq!(doc.word_count, 0);
}

#[test]
fn only_the_beginning_of_long_content_is_kept() {
    let long = "ä ".repeat(9000);
    let html = format!("<body>{long}</body>");
    let doc = document::process_page("https://bad.org/", &html, &lists());
    assert_eq!(doc.content.chars().count(), 10000);
    assert_eq!(doc.word_count, 9000);
    assert_eq!(doc.domain_quality, DomainQuality::Low);
    assert_eq!(document::keep_content("abc"), "abc");
    assert_eq!(document::keep_content(&"x".repeat(10000)).len(), 10000);
    assert_eq!(document::keep_content(&"x".repeat(10001)).len(), 10000);
}

#[test]
fn titles_and_contents_are_made_of_pieces() {
    let pieces = |parts: &[&str]| Some(parts.iter().map(|p| p.to_string()).collect::<Vec<_>>());
    assert_eq!(document::make_title(&pieces(&[" a", "b "]), "u"), "ab");
    assert_eq!(document::make_title(&pieces(&[]), "u"), "");
    assert_eq!(document::make_title(&None, " u "), "u");
    assert_eq!(document::make_content(&pieces(&[" a\n", "b  c", ""])), "a b c");
    assert_eq!(document::make_content(&None), "");
    assert_eq!(document::space_words("\ta  b "), "a b");
}
