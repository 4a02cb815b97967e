use flooglyflup::html;
use flooglyflup::page::{self, Answer, FetchedPage};

#[test]
fn answers_are_judged() {
    assert_eq!(page::judge_answer(false, "text/html"), Answer::Refused);
    assert_eq!(page::judge_answer(true, "text/html; charset=utf-8"), Answer::Html);
    assert_eq!(page::judge_answer(true, "application/pdf"), Answer::NotHtml);
    assert_eq!(page::judge_answer(true, ""), Answer::NotHtml);
}

#[test]
fn pages_are_fetched_at_their_normal_form() {
    assert_eq!(page::fetch_address("https://Example.com/a/#b"), "https://example.com/a");
    assert_eq!(page::fetch_address("nonsense"), "nonsense");
}

#[test]
fn bodies_are_known_by_their_digest() {
    assert_eq!(
        page::content_hash(&b"abc".to_vec()),
        "ba7816bf8f01cfea414140de5dae2223b00361a396177a9cb410ff61f20015ad"
    );
    assert_eq!(
        page::content_hash(&vec![]),
        "e3b0c44298fc1c149afbf4c8996fb92427ae41e4649b934ca495991b7852b855"
    );
}

#[test]
fn what_is_not_utf8_is_replaced() {
    assert_eq!(page::page_text(&"grün".as_bytes().to_vec()), "grün");
    assert_eq!(page::page_text(&vec![b'a', 0xff, b'b']), "a\u{fffd}b");
}

fn fetched(address: &str, body: &[u8]) -> FetchedPage {
    FetchedPage {
        address: address.to_string(),
        content_type: "text/html".to_string(),
        retrieval_date: "2024-01-01T00:00:00+00:00".to_string(),
        crawl_time_ms: 12,
        body: body.to_vec(),
    }
}

#[test]
fn a_page_is_stored_with_all_its_links() {
    let body = b"<a href='/x'>x</a><a href='https://other.org/'>o</a>\xff";
    let crawled = page::digest_page(fetched("https://www.example.com/p", body)).unwrap();
    let (domain, record) = crawled.record.unwrap();
    assert_eq!(domain, "example.com");
    assert_eq!(record.url, "https://www.example.com/p");
    assert_eq!(record.content_type, "text/html");
    assert_eq!(record.retrieval_date, "2024-01-01T00:00:00+00:00");
    assert_eq!(record.crawl_time_ms, 12);
    assert_eq!(record.content_hash, page::content_hash(&body.to_vec()));
    assert_eq!(record.body, body);
    assert_eq!(record.outbound_links, vec!["https://www.example.com/x", "https://other.org"]);
    assert_eq!(crawled.links, vec!["https://www.example.com/x"]);
    for link in &crawled.links {
        assert!(record.outbound_links.contains(link));
    }
}

#[test]
fn a_page_without_a_domain_is_not_stored() {
    let crawled = page::digest_page(fetched("http://127.0.0.1/", b"<a href='/x'>x</a>")).unwrap();
    assert!(crawled.record.is_none());
    assert!(crawled.links.is_empty());
}

#[test]
fn pages_of_one_site_are_stored_under_one_root() {
    for address in ["https://docs.example.com/x", "https://example.com/y", "http://a.b.example.com:8080/"] {
        let (domain, record) = page::digest_page(fetched(address, b"")).unwrap().record.unwrap();
        assert_eq!(domain, "example.com");
        assert_eq!(record.url, address);
    }
    let (domain, _) = page::digest_page(fetched("http://localhost/", b"")).unwrap().record.unwrap();
    assert_eq!(domain, "localhost");
}

#[test]
fn a_page_is_digested_with_the_text_that_is_given() {
    let given = page::digest_text(fetched("https://example.com/p", b"body"), "<a href='y#z'>y</a>");
    assert_eq!(given.links, vec!["https://example.com/y"]);
    let (domain, record) = given.record.unwrap();
    assert_eq!(domain, "example.com");
    assert_eq!(record.body, b"body");
    assert_eq!(record.outbound_links, vec!["https://example.com/y"]);
    assert_eq!(record.content_hash, page::content_hash(&b"body".to_vec()));
}

#[test]
fn a_text_has_at_most_three_bytes_for_one() {
    for body in [vec![], vec![0xff; 40], b"abc".to_vec(), vec![0xe2, 0x82, b'x', 0xf0, 0x9f, 0x98]] {
        assert!(page::page_text(&body).len() <= 3 * body.len());
    }
    assert_eq!(page::page_text(&vec![0xff; 40]).len(), 120);
}

#[test]
fn ordinary_pages_are_not_too_long() {
    assert!(html::page_fits(""));
    assert!(html::page_fits(&"<p>x</p>".repeat(1000)));
    assert!(page::digest_page(fetched("https://example.com/", &[0xff; 1000])).is_some());
}
