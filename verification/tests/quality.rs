use flooglyflup::quality::{self, DomainLists, DomainQuality};

fn words(n: usize, word: &str) -> String {
    vec![word; n].join(" ")
}

#[test]
fn lists_are_read_in_lower_case() {
    assert_eq!(quality::parse_domain_list("# good\nArXiv.org\n\n .EDU # schools\n"), vec!["arxiv.org", ".edu"]);
    assert!(quality::parse_domain_list("").is_empty());
}

#[test]
fn good_domains_are_asked_for_first() {
    let lists = DomainLists::parse("arxiv.org\n.edu\n", "spam\nbad.edu\n");
    assert_eq!(lists.score_domain_quality("www.ArXiv.org"), DomainQuality::High);
    assert_eq!(lists.score_domain_quality("bad.edu"), DomainQuality::High);
    assert_eq!(lists.score_domain_quality("SPAMMY.example"), DomainQuality::Low);
    assert_eq!(lists.score_domain_quality("example.com"), DomainQuality::Neutral);
    assert_eq!(DomainQuality::High.score_hundredths(), 150);
    assert_eq!(DomainQuality::Neutral.score_hundredths(), 100);
    assert_eq!(DomainQuality::Low.score_hundredths(), 50);
}

#[test]
fn content_is_scored() {
    assert_eq!(quality::analyze_content_quality("<p>", ""), (500, false));
    assert_eq!(quality::analyze_content_quality("<p>", &words(99, "x")), (500, false));
    assert_eq!(quality::analyze_content_quality("<p>", &words(100, "x")), (1000, false));
    assert_eq!(quality::analyze_content_quality("<p>", &words(1000, "x")), (1000, false));
    assert_eq!(quality::analyze_content_quality("<p>", &words(1001, "x")), (1200, false));
    assert_eq!(quality::analyze_content_quality("<pre>", &words(100, "x")), (1300, true));
    assert_eq!(quality::analyze_content_quality("<div class=\"highlight x\">", &words(100, "x")), (1300, true));
    assert_eq!(quality::analyze_content_quality("<p>", &words(100, "Theorem")), (1050, false));
    assert_eq!(quality::analyze_content_quality("```", "theorem proof"), (700, true));
    let all = "algorithm implementation theorem proof analysis research experiment methodology hypothesis abstract \
               function class interface api protocol arxiv doi: isbn: citation references ";
    assert_eq!(quality::analyze_content_quality("<code>", &all.repeat(60)), (2000, true));
    assert_eq!(quality::analyze_content_quality("<p>", &all.repeat(5)), (1500, false));
}

#[test]
fn words_are_counted() {
    assert_eq!(quality::count_words(" a  b\nc "), 3);
    assert_eq!(quality::count_words(""), 0);
}

#[test]
fn lists_of_two_parts_have_the_patterns_of_both() {
    for (a, b) in [("", ""), ("a.org", "b.org"), ("A.org # x\r", "\n#\nb"), ("a\n", "\n b "), ("\r", "x"), ("# c", "d")] {
        let mut expected = quality::parse_domain_list(a);
        expected.extend(quality::parse_domain_list(b));
        assert_eq!(quality::parse_domain_list(&format!("{a}\n{b}")), expected, "{a:?} {b:?}");
    }
}

#[test]
fn lowered_texts_are_scored_as_they_are() {
    let lists = DomainLists::parse("arxiv.org\n", "spam\n");
    assert_eq!(lists.score_lowered_domain("www.arxiv.org"), DomainQuality::High);
    assert_eq!(lists.score_lowered_domain("ARXIV.org"), DomainQuality::Neutral);
    assert_eq!(lists.score_lowered_domain("spam.example"), DomainQuality::Low);
    let content = words(100, "x");
    assert_eq!(quality::score_lowered_content("<p>", &content, "theorem proof"), (1100, false));
    assert_eq!(quality::score_lowered_content("<code>", &content, "THEOREM"), (1300, true));
}
