use flooglyflup::links::{self, FoundLink};

#[test]
fn links_are_made_absolute_and_sorted() {
    let html = concat_html(&[
        "<a href='/x#y'>x</a>",
        "<a href='https://sub.example.com/'>sub</a>",
        "<a href='https://other.org/p/'>other</a>",
        "<a href='mailto:a@example.com'>mail</a>",
        "<a name='n'>no reference</a>",
        "<a href='https://'>broken</a>",
        "<a href='/x'>again</a>",
    ]);
    let r = links::extract_links("https://example.com/dir/", &html);
    assert_eq!(
        r.all,
        vec![
            "https://example.com/x",
            "https://sub.example.com",
            "https://other.org/p",
            "https://example.com/x",
        ]
    );
    assert_eq!(r.same_domain, vec!["https://example.com/x", "https://sub.example.com", "https://example.com/x"]);
    for link in &r.same_domain {
        assert!(r.all.contains(link));
    }
}

fn concat_html(parts: &[&str]) -> String {
    parts.join("\n")
}

#[test]
fn a_page_at_no_url_has_no_links() {
    let r = links::extract_links("example.com", "<a href='https://other.org'>x</a>");
    assert!(r.all.is_empty() && r.same_domain.is_empty());
}

#[test]
fn a_page_at_an_address_has_no_site() {
    let r = links::extract_links("http://127.0.0.1/", "<a href='/x'>x</a>");
    assert_eq!(r.all, vec!["http://127.0.0.1/x"]);
    assert!(r.same_domain.is_empty());
}

#[test]
fn only_links_that_can_be_fetched_count() {
    let link = |url: &str, scheme: &str, domain: Option<&str>| FoundLink {
        url: url.to_string(),
        scheme: scheme.to_string(),
        domain: domain.map(|d| d.to_string()),
    };
    let found = vec![
        link("u1", "http", Some("b.org")),
        link("u2", "ftp", Some("b.org")),
        link("u3", "https", None),
        link("u4", "https", Some("a.b.org")),
    ];
    let r = links::sort_links(&Some("b.org".to_string()), found);
    assert_eq!(r.all, vec!["u1", "u3", "u4"]);
    assert_eq!(r.same_domain, vec!["u1", "u4"]);
    let r = links::sort_links(&None, vec![link("u1", "http", Some("b.org"))]);
    assert_eq!(r.all, vec!["u1"]);
    assert!(r.same_domain.is_empty());
}

#[test]
fn links_have_no_fragments() {
    let html = "<a href='#a'>a</a><a href='x#b#c'>b</a><a href='https://other.org#'>c</a><a href='HTTP://example.com/y#d'>d</a>";
    let r = links::extract_links("https://example.com/p", html);
    assert_eq!(
        r.all,
        vec!["https://example.com/p", "https://example.com/x", "https://other.org", "http://example.com/y"]
    );
    for link in r.all.iter().chain(&r.same_domain) {
        assert!(!link.contains('#'));
    }
}
