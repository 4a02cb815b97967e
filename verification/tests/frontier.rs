use flooglyflup::frontier::Frontier;

fn owned(parts: &[&str]) -> Vec<String> {
    parts.iter().map(|p| p.to_string()).collect()
}

#[test]
fn pages_come_breadth_first_and_once() {
    let mut crawl = Frontier::new(&owned(&["https://a.org/", "not a url", "https://b.org", "https://a.org#x"]), 2, 100);
    assert_eq!(crawl.next_page(), Some(("https://a.org".to_string(), 0)));
    assert_eq!(crawl.add_links(&owned(&["https://a.org/1", "https://b.org", "https://a.org/1", "https://a.org"])), 1);
    assert_eq!(crawl.next_page(), Some(("https://b.org".to_string(), 0)));
    assert_eq!(crawl.add_links(&owned(&["https://b.org/1", "https://a.org/1"])), 1);
    assert_eq!(crawl.next_page(), Some(("https://a.org/1".to_string(), 1)));
    assert_eq!(crawl.add_links(&owned(&["https://a.org/2"])), 1);
    assert_eq!(crawl.next_page(), Some(("https://b.org/1".to_string(), 1)));
    assert_eq!(crawl.next_page(), Some(("https://a.org/2".to_string(), 2)));
    assert_eq!(crawl.add_links(&owned(&["https://a.org/3"])), 0);
    assert_eq!(crawl.next_page(), None);
    assert_eq!(crawl.next_page(), None);
}

#[test]
fn the_number_of_pages_is_a_limit() {
    let mut crawl = Frontier::new(&owned(&["https://a.org", "https://b.org", "https://c.org"]), 3, 2);
    assert!(crawl.next_page().is_some());
    assert!(crawl.next_page().is_some());
    assert_eq!(crawl.next_page(), None);
    let mut none = Frontier::new(&owned(&["https://a.org"]), 3, 0);
    assert_eq!(none.next_page(), None);
}

#[test]
fn at_depth_nought_no_link_is_followed() {
    let mut crawl = Frontier::new(&owned(&["https://a.org"]), 0, 10);
    assert!(crawl.next_page().is_some());
    assert_eq!(crawl.add_links(&owned(&["https://a.org/1"])), 0);
    assert_eq!(crawl.next_page(), None);
}

#[test]
fn without_seeds_there_is_nothing_to_crawl() {
    let mut crawl = Frontier::new(&vec![], 3, 10);
    assert_eq!(crawl.next_page(), None);
}

fn links_of(url: &str) -> Vec<String> {
    match url {
        "https://a.org" => owned(&["https://a.org/1", "https://a.org/2"]),
        "https://a.org/1" => owned(&["https://a.org", "https://a.org/3"]),
        "https://a.org/2" => owned(&["https://a.org/3"]),
        "https://a.org/3" => owned(&["https://a.org/4"]),
        "https://a.org/4" => owned(&["https://a.org/5"]),
        "https://a.org/6" => owned(&["https://a.org"]),
        _ => vec![],
    }
}

fn crawled(max_depth: usize, max_pages: usize) -> Vec<String> {
    let mut crawl = Frontier::new(&owned(&["https://a.org", "https://b.org"]), max_depth, max_pages);
    let mut pages = vec![];
    while let Some((url, _)) = crawl.next_page() {
        crawl.add_links(&links_of(&url));
        pages.push(url);
    }
    pages
}

#[test]
fn a_crawl_reaches_every_page_within_its_depth() {
    assert_eq!(crawled(0, 100), owned(&["https://a.org", "https://b.org"]));
    assert_eq!(
        crawled(2, 100),
        owned(&["https://a.org", "https://b.org", "https://a.org/1", "https://a.org/2", "https://a.org/3"])
    );
    assert_eq!(crawled(3, 100).last().unwrap(), "https://a.org/4");
    assert_eq!(crawled(9, 100).len(), 7);
    assert!(!crawled(9, 100).contains(&"https://a.org/6".to_string()));
    assert_eq!(crawled(2, 3), owned(&["https://a.org", "https://b.org", "https://a.org/1"]));
}
