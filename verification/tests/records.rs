use flooglyflup::records::{self, PageRecord};
use std::collections::hash_map::DefaultHasher;
use std::hash::{Hash, Hasher};

fn record(url: &str, hash: &str) -> PageRecord {
    PageRecord {
        url: url.to_string(),
        content_type: "text/html".to_string(),
        retrieval_date: "2024-01-01T00:00:00+00:00".to_string(),
        crawl_time_ms: 5,
        content_hash: hash.to_string(),
        body: vec![1, 2],
        outbound_links: vec![],
    }
}

fn keys(records: &[PageRecord]) -> Vec<String> {
    records.iter().map(|r| format!("{}={}", r.url, r.content_hash)).collect()
}

#[test]
fn pages_that_come_again_are_replaced() {
    let existing = vec![record("a", "1"), record("b", "1"), record("a", "0")];
    let merged = records::merge_records(existing, vec![record("c", "2"), record("a", "2")]);
    assert_eq!(keys(&merged), vec!["b=1", "c=2", "a=2"]);
}

#[test]
fn storing_twice_changes_nothing() {
    let once = records::merge_records(vec![record("a", "1"), record("b", "1")], vec![record("a", "2"), record("a", "3")]);
    assert_eq!(keys(&once), vec!["b=1", "a=2", "a=3"]);
    let expected = keys(&once);
    let twice = records::merge_records(once, vec![record("a", "2"), record("a", "3")]);
    assert_eq!(keys(&twice), expected);
}

#[test]
fn records_are_grouped_by_domain() {
    let pages = vec![
        ("x.org".to_string(), record("1", "")),
        ("y.org".to_string(), record("2", "")),
        ("x.org".to_string(), record("3", "")),
    ];
    let mut groups = records::group_by_domain(pages);
    groups.sort_by(|a, b| a.0.cmp(&b.0));
    let shown: Vec<(String, Vec<String>)> =
        groups.into_iter().map(|(d, rs)| (d, rs.into_iter().map(|r| r.url).collect())).collect();
    assert_eq!(
        shown,
        vec![
            ("x.org".to_string(), vec!["1".to_string(), "3".to_string()]),
            ("y.org".to_string(), vec!["2".to_string()]),
        ]
    );
}

#[test]
fn domains_are_numbered_by_the_default_hasher() {
    for domain in ["", "example.com", "bücher.example"] {
        let mut hasher = DefaultHasher::new();
        domain.hash(&mut hasher);
        assert_eq!(records::domain_hash(domain), hasher.finish());
    }
}

#[test]
fn files_are_named_after_their_domain() {
    for domain in ["example.com", "", "bücher.example"] {
        let expected = format!("{}_{}.parquet", records::domain_hash(domain), domain);
        assert_eq!(records::parquet_path_for_domain(domain), expected);
    }
}
