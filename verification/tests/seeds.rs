use flooglyflup::seeds::{self, SeedSource};

#[test]
fn seeds_are_literal_or_listed_in_files() {
    let entries: Vec<String> =
        ["example.com", "  ", " seeds.txt ", "gone.txt", "http://b.org/x"].iter().map(|e| e.to_string()).collect();
    let sources = vec![
        SeedSource::NotAFile,
        SeedSource::NotAFile,
        SeedSource::Contents("# all\na.org # one\n\nhttps://c.org\n".to_string()),
        SeedSource::Unreadable,
        SeedSource::NotAFile,
    ];
    let seeds = seeds::resolve_seed_urls(&entries, &sources);
    assert_eq!(seeds, vec!["https://example.com", "https://a.org", "https://c.org", "http://b.org/x"]);
    for seed in &seeds {
        assert!(seed.starts_with("http://") || seed.starts_with("https://"));
    }
}

#[test]
fn a_blank_entry_names_no_file() {
    assert_eq!(seeds::seed_file(" \t"), None);
    assert_eq!(seeds::seed_file(" a b "), Some("a b"));
}
