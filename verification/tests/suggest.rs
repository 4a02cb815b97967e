use flooglyflup::document::Document;
use flooglyflup::quality::DomainQuality;
use flooglyflup::suggest::{self, SuggestionEntry, SuggestionError, SuggestionIndex};
use serde::ser::SerializeStruct;
use serde::Serialize;

fn document(title: &str) -> Document {
    Document {
        url: "https://example.com".to_string(),
        title: title.to_string(),
        content: String::new(),
        base_url: "example.com".to_string(),
        language: "en".to_string(),
        published_date: None,
        domain_quality: DomainQuality::Neutral,
        content_quality: 1000,
        has_code: false,
        word_count: 0,
    }
}

fn entry(word: &str, count: u32) -> SuggestionEntry {
    SuggestionEntry { word: word.to_string(), count }
}

fn pairs(entries: &[SuggestionEntry]) -> Vec<(String, u32)> {
    entries.iter().map(|e| (e.word.clone(), e.count)).collect()
}

fn index(entries: &[(&str, u32)]) -> SuggestionIndex {
    SuggestionIndex { entries: entries.iter().map(|(w, c)| entry(w, *c)).collect() }
}

#[test]
fn titles_are_cut_at_the_first_separator() {
    assert_eq!(suggest::first_title_segment("Rust Book | docs - x"), "Rust Book");
    assert_eq!(suggest::first_title_segment("a – b — c"), "a");
    assert_eq!(suggest::first_title_segment("a — b"), "a");
    assert_eq!(suggest::first_title_segment("std::vec :: Rust"), "std::vec");
    assert_eq!(suggest::first_title_segment("Größe » Site"), "Größe");
    assert_eq!(suggest::first_title_segment("x-y - z"), "x-y");
    assert_eq!(suggest::first_title_segment("  plain "), "plain");
    assert_eq!(suggest::first_title_segment(" | site"), "");
    assert_eq!(suggest::first_title_segment(""), "");
}

#[test]
fn words_of_titles_are_letters_and_digits() {
    let mut words = suggest::title_words("C++ in 2024: C++ IN a über-GUIDE ß | rest");
    words.sort();
    assert_eq!(words, vec!["2024", "guide", "in", "ß", "über"]);
    assert!(suggest::title_words("a b c").is_empty());
}

#[test]
fn titles_are_counted_once_for_each_word() {
    let documents = vec![document("Rust rust RUST"), document("The Rust book | x"), document(""), document("the end")];
    let entries = suggest::build_suggestion_entries(&documents);
    let expected: Vec<(String, u32)> =
        [("book", 1), ("end", 1), ("rust", 2), ("the", 2)].iter().map(|(w, c)| (w.to_string(), *c)).collect();
    assert_eq!(pairs(&entries), expected);
    let mut reversed = documents;
    reversed.reverse();
    assert_eq!(pairs(&suggest::build_suggestion_entries(&reversed)), expected);
    assert!(suggest::build_suggestion_entries(&vec![]).is_empty());
}

#[test]
fn many_words_are_sorted() {
    let title: Vec<String> = (0..500u32).map(|i| format!("w{}", i * 7919 % 500)).collect();
    let entries = suggest::build_suggestion_entries(&vec![document(&title.join(" "))]);
    let mut expected: Vec<String> = title;
    expected.sort();
    expected.dedup();
    assert_eq!(entries.iter().map(|e| e.word.clone()).collect::<Vec<_>>(), expected);
    assert!(entries.iter().all(|e| e.count == 1));
}

#[test]
fn the_most_frequent_completions_come_first() {
    let index = index(&[("ab", 3), ("abc", 5), ("abd", 3), ("abe", 9), ("b", 50)]);
    assert_eq!(index.suggest("AB", 3), vec!["abe", "abc", "ab"]);
    assert_eq!(index.suggest("ab", 10), vec!["abe", "abc", "ab", "abd"]);
    assert_eq!(index.suggest("ab", 1), vec!["abe"]);
    assert_eq!(index.suggest("", 2), vec!["b", "abe"]);
    assert!(index.suggest("ab", 0).is_empty());
    assert!(index.suggest("abf", 5).is_empty());
    assert!(index.suggest("c", 5).is_empty());
    assert!(index.suggest("a ", 5).is_empty());
}

#[test]
fn requests_are_clamped() {
    let words: Vec<(String, u32)> = (0..30).map(|i| (format!("w{i:02}"), 1)).collect();
    let borrowed: Vec<(&str, u32)> = words.iter().map(|(w, c)| (w.as_str(), *c)).collect();
    let index = index(&borrowed);
    assert_eq!(index.complete(" W ", 0), vec!["w00"]);
    assert_eq!(index.complete("w", 25).len(), 20);
    assert_eq!(index.complete("w", suggest::default_suggest_limit()).len(), 10);
    assert!(index.complete("  ", 5).is_empty());
}

#[test]
fn stored_entries_are_read_back() {
    let entries = vec![entry("alpha", 1), entry("grün", 300), entry("", u32::MAX)];
    let bytes = suggest::store_entries(&entries).unwrap();
    let loaded = SuggestionIndex::load(&bytes).unwrap();
    assert_eq!(pairs(&loaded.entries), pairs(&entries));
    let none = suggest::store_entries(&vec![]).unwrap();
    assert_eq!(none, vec![0]);
    assert!(SuggestionIndex::load(&none).unwrap().entries.is_empty());
}

struct Artifact {
    entries: Vec<(String, u32)>,
}

impl Serialize for Artifact {
    fn serialize<S: serde::Serializer>(&self, serializer: S) -> Result<S::Ok, S::Error> {
        let mut state = serializer.serialize_struct("Artifact", 1)?;
        state.serialize_field("entries", &self.entries)?;
        state.end()
    }
}

#[test]
fn entries_are_stored_as_a_record_of_them_is() {
    let entries = vec![entry("alpha", 1), entry("beta", 200)];
    let artifact = Artifact { entries: pairs(&entries) };
    assert_eq!(suggest::store_entries(&entries).unwrap(), postcard::to_allocvec(&artifact).unwrap());
}

#[test]
fn other_bytes_are_refused() {
    assert!(matches!(SuggestionIndex::load(&vec![]), Err(SuggestionError::Malformed)));
    assert!(matches!(SuggestionIndex::load(&vec![1, 5, b'a']), Err(SuggestionError::Malformed)));
    assert!(matches!(SuggestionIndex::load(&vec![1, 1, 0xff, 1]), Err(SuggestionError::Malformed)));
}

#[test]
fn built_entries_are_served() {
    let documents = vec![document("Search engines"), document("search trees"), document("Sea")];
    let bytes = suggest::store_entries(&suggest::build_suggestion_entries(&documents)).unwrap();
    let index = SuggestionIndex::load(&bytes).unwrap();
    assert_eq!(index.complete("Sea", 10), vec!["search", "sea"]);
}

#[test]
fn lowered_prefixes_are_completed_as_they_are() {
    let index = index(&[("Ab", 9), ("ab", 3), ("abc", 5)]);
    assert_eq!(index.suggest_lowered("ab", 5), vec!["abc", "ab"]);
    assert_eq!(index.suggest_lowered("A", 5), vec!["Ab"]);
    assert_eq!(index.suggest("A", 5), vec!["abc", "ab"]);
}

#[test]
fn words_are_worth_suggesting_once() {
    let words: Vec<String> = ["ab", "a", "ä", "ab", "", "cd"].iter().map(|w| w.to_string()).collect();
    let mut kept = suggest::worth_suggesting(&words);
    kept.sort();
    assert_eq!(kept, vec!["ab", "cd", "ä"]);
}

#[test]
fn lengths_may_take_more_bytes_than_they_need() {
    let loaded = SuggestionIndex::load(&vec![0x81, 0x00, 1, b'a', 7]).unwrap();
    assert_eq!(pairs(&loaded.entries), vec![("a".to_string(), 7)]);
}
