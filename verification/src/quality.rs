//! How good a domain is known to be, and how good the content of a page looks.

use crate::text;
use vstd::prelude::*;
use vstd::string::*;

verus! {

/// What is known of a domain.
#[derive(Clone, Copy, Debug, PartialEq, Eq, Structural)]
pub enum DomainQuality {
    High,
    Neutral,
    Low,
}

impl DomainQuality {
    /// The score of the domain in hundredths.
    pub open spec fn hundredths(self) -> u32 {
        match self {
            DomainQuality::High => 150,
            DomainQuality::Neutral => 100,
            DomainQuality::Low => 50,
        }
    }

    /// The score of the domain in hundredths.
    pub fn score_hundredths(&self) -> (r: u32)
        ensures
            r == self.hundredths(),
    {
        match self {
            DomainQuality::High => 150,
            DomainQuality::Neutral => 100,
            DomainQuality::Low => 50,
        }
    }
}

/// Each text of `list` in lower case.
pub open spec fn all_lowercase(list: Seq<Seq<char>>) -> Seq<Seq<char>> {
    Seq::new(list.len(), |i: int| text::lowercase(list[i]))
}

/// Some pattern of `patterns` stands in `domain`.
pub open spec fn matches_any(domain: Seq<char>, patterns: Seq<Seq<char>>) -> bool {
    exists|i: int| 0 <= i < patterns.len() && text::contains_text(domain, #[trigger] patterns[i])
}

/// The patterns of a domain list: one on each line, in lower case. Blank lines and what follows a
/// `#` are no part of it.
pub fn parse_domain_list(raw: &str) -> (r: Vec<String>)
    ensures
        r.deep_view() == all_lowercase(text::entries_of(raw@)),
{
    let entries = text::list_entries(raw);
    let ghost views = entries.deep_view();
    let mut r: Vec<String> = Vec::new();
    let mut i: usize = 0;
    while i < entries.len()
        invariant
            i <= entries.len(),
            views == entries.deep_view(),
            r.deep_view() == all_lowercase(views.take(i as int)),
        decreases entries.len() - i,
    {
        let ghost before = r.deep_view();
        r.push(entries[i].as_str().to_lowercase());
        assert(r.deep_view() == before.push(text::lowercase(views[i as int])));
        assert(all_lowercase(views.take(i + 1)) == before.push(text::lowercase(views[i as int])));
        i = i + 1;
    }
    assert(views.take(entries.len() as int) == views);
    r
}

/// The domains that are known to be good, and those that are known to be bad.
pub struct DomainLists {
    pub high: Vec<String>,
    pub low: Vec<String>,
}

impl DomainLists {
    /// The quality that the lists give to a domain that is `lower` in lower case. The list of good
    /// domains is asked first.
    pub open spec fn lowered_quality(self, lower: Seq<char>) -> DomainQuality {
        if matches_any(lower, self.high.deep_view()) {
            DomainQuality::High
        } else if matches_any(lower, self.low.deep_view()) {
            DomainQuality::Low
        } else {
            DomainQuality::Neutral
        }
    }

    /// The quality that the lists give to `domain`, in whatever case it is written.
    pub open spec fn quality_of(self, domain: Seq<char>) -> DomainQuality {
        self.lowered_quality(text::lowercase(domain))
    }

    /// The two lists as they stand in their files.
    pub fn parse(high_raw: &str, low_raw: &str) -> (r: DomainLists)
        ensures
            r.high.deep_view() == all_lowercase(text::entries_of(high_raw@)),
            r.low.deep_view() == all_lowercase(text::entries_of(low_raw@)),
    {
        DomainLists { high: parse_domain_list(high_raw), low: parse_domain_list(low_raw) }
    }

    /// The quality that the lists give to `domain`.
    pub fn score_domain_quality(&self, domain: &str) -> (r: DomainQuality)
        ensures
            r == self.quality_of(domain@),
    {
        let lower = domain.to_lowercase();
        self.score_lowered_domain(lower.as_str())
    }

    /// The quality that the lists give to a domain that is `lower` in lower case.
    pub fn score_lowered_domain(&self, lower: &str) -> (r: DomainQuality)
        ensures
            r == self.lowered_quality(lower@),
    {
        if contains_any(lower, &self.high) {
            DomainQuality::High
        } else if contains_any(lower, &self.low) {
            DomainQuality::Low
        } else {
            DomainQuality::Neutral
        }
    }
}

fn contains_any(domain: &str, patterns: &Vec<String>) -> (r: bool)
    ensures
        r == matches_any(domain@, patterns.deep_view()),
{
    let ghost views = patterns.deep_view();
    let mut i: usize = 0;
    while i < patterns.len()
        invariant
            i <= patterns.len(),
            views == patterns.deep_view(),
            forall|j: int| 0 <= j < i ==> !text::contains_text(domain@, #[trigger] views[j]),
        decreases patterns.len() - i,
    {
        if text::contains(domain, patterns[i].as_str()) {
            assert(text::contains_text(domain@, views[i as int]));
            return true;
        }
        i = i + 1;
    }
    false
}

/// The number of `terms` that stand in `s`.
pub open spec fn count_present(s: Seq<char>, terms: Seq<Seq<char>>) -> nat
    decreases terms.len(),
{
    if terms.len() == 0 {
        0
    } else {
        count_present(s, terms.drop_last()) + if text::contains_text(s, terms.last()) {
            1nat
        } else {
            0nat
        }
    }
}

/// What marks code in a page.
pub open spec fn code_indicators() -> Seq<Seq<char>> {
    seq!["<code"@, "<pre"@, "```"@, "class=\"highlight"@, "class=\"code"@]
}

/// The words that mark a technical text.
pub open spec fn technical_terms() -> Seq<Seq<char>> {
    seq![
        "algorithm"@,
        "implementation"@,
        "theorem"@,
        "proof"@,
        "analysis"@,
        "research"@,
        "experiment"@,
        "methodology"@,
        "hypothesis"@,
        "abstract"@,
        "function"@,
        "class"@,
        "interface"@,
        "api"@,
        "protocol"@,
        "arxiv"@,
        "doi:"@,
        "isbn:"@,
        "citation"@,
        "references"@,
    ]
}

/// The page `html` holds code.
pub open spec fn shows_code(html: Seq<char>) -> bool {
    count_present(html, code_indicators()) > 0
}

/// The quality of a page's content in thousandths: code adds 300, each technical term 50 up to
/// 500. A text of less than 100 words counts half, one of more than 1000 gets 200 more. No page
/// gets more than 3000.
pub open spec fn content_thousandths(has_code: bool, terms: nat, words: nat) -> int {
    let code: int = if has_code {
        300
    } else {
        0
    };
    let technical: int = if terms * 50 < 500 {
        terms as int * 50
    } else {
        500
    };
    let base = 1000 + code + technical;
    let sized = if words < 100 {
        base / 2
    } else if words > 1000 {
        base + 200
    } else {
        base
    };
    if sized < 3000 {
        sized
    } else {
        3000
    }
}

/// The number of words of `s`.
pub fn count_words(s: &str) -> (r: usize)
    ensures
        r == text::words_of(s@).len(),
{
    let words = text::words(s);
    assert(words.deep_view().len() == words.len());
    words.len()
}

fn count_terms(s: &str, terms: &Vec<&str>) -> (r: usize)
    ensures
        r == count_present(s@, terms.deep_view()),
        r <= terms.len(),
{
    let ghost views = terms.deep_view();
    let mut n: usize = 0;
    let mut i: usize = 0;
    while i < terms.len()
        invariant
            n <= i <= terms.len(),
            views == terms.deep_view(),
            n == count_present(s@, views.take(i as int)),
        decreases terms.len() - i,
    {
        assert(views.take(i + 1).drop_last() == views.take(i as int));
        assert(views.take(i + 1).last() == terms@[i as int]@);
        if text::contains(s, terms[i]) {
            n = n + 1;
        }
        i = i + 1;
    }
    assert(views.take(terms.len() as int) == views);
    n
}

/// The quality of a page's content in thousandths, and whether the page holds code.
pub fn analyze_content_quality(html: &str, text_content: &str) -> (r: (u32, bool))
    ensures
        r.1 == shows_code(html@),
        r.0 == content_thousandths(
            shows_code(html@),
            count_present(text::lowercase(text_content@), technical_terms()),
            text::words_of(text_content@).len(),
        ),
{
    let lower = text_content.to_lowercase();
    score_lowered_content(html, text_content, lower.as_str())
}

/// The quality of a page's content, and whether the page holds code, where the content is `lower`
/// in lower case.
pub fn score_lowered_content(html: &str, text_content: &str, lower: &str) -> (r: (u32, bool))
    ensures
        r.1 == shows_code(html@),
        r.0 == content_thousandths(
            shows_code(html@),
            count_present(lower@, technical_terms()),
            text::words_of(text_content@).len(),
        ),
{
    let indicators: Vec<&str> = vec![
        "<code",
        "<pre",
        "```",
        "class=\"highlight",
        "class=\"code",
    ];
    assert(indicators.deep_view() == code_indicators());
    let has_code = count_terms(html, &indicators) > 0;

    let terms: Vec<&str> = vec![
        "algorithm",
        "implementation",
        "theorem",
        "proof",
        "analysis",
        "research",
        "experiment",
        "methodology",
        "hypothesis",
        "abstract",
        "function",
        "class",
        "interface",
        "api",
        "protocol",
        "arxiv",
        "doi:",
        "isbn:",
        "citation",
        "references",
    ];
    assert(terms.deep_view() == technical_terms());
    let found = count_terms(lower, &terms);

    let mut quality: u32 = 1000;
    if has_code {
        quality = quality + 300;
    }
    quality = quality + if found < 10 {
        found as u32 * 50
    } else {
        500
    };
    let words = count_words(text_content);
    if words < 100 {
        quality = quality / 2;
    } else if words > 1000 {
        quality = quality + 200;
    }
    if quality > 3000 {
        quality = 3000;
    }
    (quality, has_code)
}

/// The quality of content lies between a half and two.
pub proof fn lemma_content_quality_range(has_code: bool, terms: nat, words: nat)
    ensures
        500 <= content_thousandths(has_code, terms, words) <= 2000,
{
}

/// A domain list of two parts, one below the other, has the patterns of the first and then those of
/// the second.
pub proof fn lemma_lists_of_two_parts(a: Seq<char>, b: Seq<char>)
    ensures
        all_lowercase(text::entries_of(a + seq!['\n'] + b)) == all_lowercase(text::entries_of(a))
            + all_lowercase(text::entries_of(b)),
{
    text::lemma_entries_of_two_parts(a, b);
}

/// Some pattern of `patterns` stands somewhere in `domain`.
pub proof fn lemma_matches_any(domain: Seq<char>, patterns: Seq<Seq<char>>)
    ensures
        matches_any(domain, patterns) <==> exists|i: int, a: Seq<char>, b: Seq<char>|
            0 <= i < patterns.len() && domain == #[trigger] (a + patterns[i] + b),
{
    if matches_any(domain, patterns) {
        let i = choose|i: int|
            0 <= i < patterns.len() && text::contains_text(domain, #[trigger] patterns[i]);
        text::lemma_contains_text(domain, patterns[i]);
        let (a, b) = choose|a: Seq<char>, b: Seq<char>| domain == #[trigger] (a + patterns[i] + b);
        assert(domain == a + patterns[i] + b);
    }
    if exists|i: int, a: Seq<char>, b: Seq<char>|
        0 <= i < patterns.len() && domain == #[trigger] (a + patterns[i] + b) {
        let (i, a, b) = choose|i: int, a: Seq<char>, b: Seq<char>|
            0 <= i < patterns.len() && domain == #[trigger] (a + patterns[i] + b);
        text::lemma_contains_text(domain, patterns[i]);
        assert(text::contains_text(domain, patterns[i]));
    }
}

/// A domain is good where a pattern of the list of good domains stands anywhere in it, in whatever
/// case it is written; else it is bad where one of the list of bad domains does; and else neither.
/// Its score is one, and a half more or less.
pub proof fn lemma_domain_quality(lists: DomainLists, domain: Seq<char>)
    ensures
        lists.quality_of(domain) == DomainQuality::High <==> exists|
            i: int,
            a: Seq<char>,
            b: Seq<char>,
        |
            0 <= i < lists.high.deep_view().len() && text::lowercase(domain) == #[trigger] (a
                + lists.high.deep_view()[i] + b),
        lists.quality_of(domain) == DomainQuality::Low <==> lists.quality_of(domain)
            != DomainQuality::High && exists|i: int, a: Seq<char>, b: Seq<char>|
            0 <= i < lists.low.deep_view().len() && text::lowercase(domain) == #[trigger] (a
                + lists.low.deep_view()[i] + b),
        lists.quality_of(domain) == lists.lowered_quality(text::lowercase(domain)),
        DomainQuality::Neutral.hundredths() == 100,
        DomainQuality::High.hundredths() == DomainQuality::Neutral.hundredths() + 50,
        DomainQuality::Low.hundredths() == DomainQuality::Neutral.hundredths() - 50,
{
    lemma_matches_any(text::lowercase(domain), lists.high.deep_view());
    lemma_matches_any(text::lowercase(domain), lists.low.deep_view());
}

/// A list in lower case has the same entries in the same order.
pub proof fn lemma_all_lowercase(list: Seq<Seq<char>>)
    ensures
        all_lowercase(list) == list.map_values(|e: Seq<char>| text::lowercase(e)),
{
}

/// Every term that stands in a text counts, once, wherever it stands.
pub proof fn lemma_count_present(s: Seq<char>, terms: Seq<Seq<char>>)
    ensures
        count_present(s, terms) == terms.filter(
            |t: Seq<char>| exists|a: Seq<char>, b: Seq<char>| s == #[trigger] (a + t + b),
        ).len(),
    decreases terms.len(),
{
    reveal(Seq::filter);
    if terms.len() > 0 {
        lemma_count_present(s, terms.drop_last());
        text::lemma_contains_text(s, terms.last());
    }
}

/// A page holds code where one of the marks of code stands anywhere in it.
pub proof fn lemma_shows_code(html: Seq<char>)
    ensures
        shows_code(html) <==> {
            ||| exists|a: Seq<char>, b: Seq<char>| html == #[trigger] (a + "<code"@ + b)
            ||| exists|a: Seq<char>, b: Seq<char>| html == #[trigger] (a + "<pre"@ + b)
            ||| exists|a: Seq<char>, b: Seq<char>| html == #[trigger] (a + "```"@ + b)
            ||| exists|a: Seq<char>, b: Seq<char>| html == #[trigger] (a + "class=\"highlight"@ + b)
            ||| exists|a: Seq<char>, b: Seq<char>| html == #[trigger] (a + "class=\"code"@ + b)
        },
{
    let marks = code_indicators();
    text::lemma_contains_text(html, "<code"@);
    text::lemma_contains_text(html, "<pre"@);
    text::lemma_contains_text(html, "```"@);
    text::lemma_contains_text(html, "class=\"highlight"@);
    text::lemma_contains_text(html, "class=\"code"@);
    reveal_with_fuel(count_present, 6);
    assert(marks.take(5) == marks);
    assert(marks.take(5).drop_last() == marks.take(4) && marks.take(5).last() == marks[4]);
    assert(marks.take(4).drop_last() == marks.take(3) && marks.take(4).last() == marks[3]);
    assert(marks.take(3).drop_last() == marks.take(2) && marks.take(3).last() == marks[2]);
    assert(marks.take(2).drop_last() == marks.take(1) && marks.take(2).last() == marks[1]);
    assert(marks.take(1).drop_last() == marks.take(0) && marks.take(1).last() == marks[0]);
    assert(count_present(html, marks.take(0)) == 0);
}

/// The words that mark a technical text are twenty.
pub proof fn lemma_technical_terms()
    ensures
        technical_terms().len() == 20,
        technical_terms().to_set() == set![
            "abstract"@,
            "algorithm"@,
            "analysis"@,
            "api"@,
            "arxiv"@,
            "citation"@,
            "class"@,
            "doi:"@,
            "experiment"@,
            "function"@,
            "hypothesis"@,
            "implementation"@,
            "interface"@,
            "isbn:"@,
            "methodology"@,
            "proof"@,
            "protocol"@,
            "references"@,
            "research"@,
            "theorem"@,
        ],
{
    let terms = technical_terms();
    let words = set![
        "abstract"@,
        "algorithm"@,
        "analysis"@,
        "api"@,
        "arxiv"@,
        "citation"@,
        "class"@,
        "doi:"@,
        "experiment"@,
        "function"@,
        "hypothesis"@,
        "implementation"@,
        "interface"@,
        "isbn:"@,
        "methodology"@,
        "proof"@,
        "protocol"@,
        "references"@,
        "research"@,
        "theorem"@,
    ];
    assert forall|w: Seq<char>| words.contains(w) implies terms.contains(w) by {
        assert(terms[0] == "algorithm"@);
        assert(terms[1] == "implementation"@);
        assert(terms[2] == "theorem"@);
        assert(terms[3] == "proof"@);
        assert(terms[4] == "analysis"@);
        assert(terms[5] == "research"@);
        assert(terms[6] == "experiment"@);
        assert(terms[7] == "methodology"@);
        assert(terms[8] == "hypothesis"@);
        assert(terms[9] == "abstract"@);
        assert(terms[10] == "function"@);
        assert(terms[11] == "class"@);
        assert(terms[12] == "interface"@);
        assert(terms[13] == "api"@);
        assert(terms[14] == "protocol"@);
        assert(terms[15] == "arxiv"@);
        assert(terms[16] == "doi:"@);
        assert(terms[17] == "isbn:"@);
        assert(terms[18] == "citation"@);
        assert(terms[19] == "references"@);
    }
    assert(terms.to_set() =~= words);
}

/// What makes up the quality of a content: a text of middling length without code or technical terms
/// has one whole; code adds three tenths; each of the first ten terms a twentieth and further terms
/// nothing; a long text adds two tenths; and a text of less than a hundred words has half of what
/// it would have at middling length.
pub proof fn lemma_content_thousandths(has_code: bool, terms: nat, words: nat)
    ensures
        content_thousandths(false, 0, 100) == 1000,
        100 <= words ==> content_thousandths(true, terms, words) == content_thousandths(
            false,
            terms,
            words,
        ) + 300,
        100 <= words && terms < 10 ==> content_thousandths(has_code, terms + 1, words)
            == content_thousandths(has_code, terms, words) + 50,
        terms >= 10 ==> content_thousandths(has_code, terms, words) == content_thousandths(
            has_code,
            10,
            words,
        ),
        100 <= words <= 1000 ==> content_thousandths(has_code, terms, words) == content_thousandths(
            has_code,
            terms,
            100,
        ),
        words > 1000 ==> content_thousandths(has_code, terms, words) == content_thousandths(
            has_code,
            terms,
            100,
        ) + 200,
        words < 100 ==> 2 * content_thousandths(has_code, terms, words) == content_thousandths(
            has_code,
            terms,
            100,
        ),
{
}

} // verus!
