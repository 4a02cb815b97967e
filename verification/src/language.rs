//! The language of a text.

use crate::text;
use vstd::prelude::*;
use vstd::string::*;
use vstd::utf8::*;
use whatlang::detect;

verus! {

/// A text of fewer bytes than this is too short to tell its language.
pub const MIN_BYTES: usize = 20;

/// A text of more characters than this has more letters, in lower case, than can be counted.
pub const MAX_CHARS: usize = 0x7fff_ffff;

/// The ISO 639-3 code of the language that whatlang detects in a text.
pub uninterp spec fn detected_code(text: Seq<char>) -> Option<Seq<char>>;

/// `whatlang::detect` guesses the language of a text, `Info::lang` and `Lang::code` give it as a
/// code of three letters. The contract names the outcome, a function of the text. The crate counts
/// in 32 bits the threes of neighbours of a text in lower case, which has at most two characters
/// for one.
#[verifier::external_body]
fn detect_code(text: &str) -> (r: Option<String>)
    requires
        text@.len() <= MAX_CHARS,
    ensures
        r.deep_view() == detected_code(text@),
{
    detect(text).map(|info| info.lang().code().to_string())
}

/// The languages that are told apart: their codes of three letters and of two.
pub open spec fn known_languages() -> Seq<(Seq<char>, Seq<char>)> {
    seq![
        ("eng"@, "en"@),
        ("spa"@, "es"@),
        ("fra"@, "fr"@),
        ("deu"@, "de"@),
        ("por"@, "pt"@),
        ("ita"@, "it"@),
        ("rus"@, "ru"@),
        ("jpn"@, "ja"@),
        ("kor"@, "ko"@),
        ("cmn"@, "zh"@),
        ("ara"@, "ar"@),
        ("hin"@, "hi"@),
        ("nld"@, "nl"@),
        ("swe"@, "sv"@),
        ("pol"@, "pl"@),
    ]
}

/// The name that stands beside `code` in `table`; "other" where `code` does not stand there.
pub open spec fn name_in(table: Seq<(Seq<char>, Seq<char>)>, code: Seq<char>) -> Seq<char>
    decreases table.len(),
{
    if table.len() == 0 {
        "other"@
    } else if table[0].0 == code {
        table[0].1
    } else {
        name_in(table.drop_first(), code)
    }
}

/// The name of a detected language: a code of two letters, "other" for a language that is not told
/// apart, "unknown" where none was detected.
pub open spec fn language_name(code: Option<Seq<char>>) -> Seq<char> {
    match code {
        Some(c) => name_in(known_languages(), c),
        None => "unknown"@,
    }
}

/// The name of the language of `text`.
pub open spec fn language_of(text: Seq<char>) -> Seq<char> {
    if encode_utf8(text).len() < MIN_BYTES {
        "unknown"@
    } else {
        language_name(detected_code(text))
    }
}

/// The name of a detected language.
pub fn name_language(code: &Option<String>) -> (r: String)
    ensures
        r@ == language_name(code.deep_view()),
{
    let wanted = match code {
        Some(c) => c.as_str(),
        None => return "unknown".to_owned(),
    };
    let table: Vec<(&str, &str)> = vec![
        ("eng", "en"),
        ("spa", "es"),
        ("fra", "fr"),
        ("deu", "de"),
        ("por", "pt"),
        ("ita", "it"),
        ("rus", "ru"),
        ("jpn", "ja"),
        ("kor", "ko"),
        ("cmn", "zh"),
        ("ara", "ar"),
        ("hin", "hi"),
        ("nld", "nl"),
        ("swe", "sv"),
        ("pol", "pl"),
    ];
    let ghost views = table.deep_view();
    assert(views == known_languages());
    assert(views.skip(0) == views);
    let mut i: usize = 0;
    while i < table.len()
        invariant
            i <= table.len(),
            views == table.deep_view(),
            language_name(code.deep_view()) == name_in(views.skip(i as int), wanted@),
        decreases table.len() - i,
    {
        assert(views.skip(i as int)[0] == (table@[i as int].0@, table@[i as int].1@));
        assert(views.skip(i as int).drop_first() == views.skip(i + 1));
        if text::same_text(table[i].0, wanted) {
            return table[i].1.to_owned();
        }
        i = i + 1;
    }
    "other".to_owned()
}

/// The name of the language of `text`: a code of two letters, "other" or "unknown".
pub fn detect_language(text: &str) -> (r: String)
    requires
        text@.len() <= MAX_CHARS,
    ensures
        r@ == language_of(text@),
{
    if text.as_bytes().len() < MIN_BYTES {
        return "unknown".to_owned();
    }
    name_language(&detect_code(text))
}

/// The name of a language is the one that stands beside its code; a code that stands nowhere in the
/// table is of another language.
pub proof fn lemma_name_in(table: Seq<(Seq<char>, Seq<char>)>, code: Seq<char>)
    ensures
        forall|i: int|
            0 <= i < table.len() && (#[trigger] table[i]).0 == code && (forall|j: int|
                0 <= j < i ==> (#[trigger] table[j]).0 != code) ==> name_in(table, code)
                == table[i].1,
        (forall|i: int| 0 <= i < table.len() ==> (#[trigger] table[i]).0 != code) ==> name_in(
            table,
            code,
        ) == "other"@,
    decreases table.len(),
{
    if table.len() > 0 {
        let rest = table.drop_first();
        lemma_name_in(rest, code);
        assert forall|i: int|
            0 <= i < table.len() && (#[trigger] table[i]).0 == code && (forall|j: int|
                0 <= j < i ==> (#[trigger] table[j]).0 != code) implies name_in(table, code)
            == table[i].1 by {
            if i > 0 {
                assert(table[0].0 != code);
                assert(rest[i - 1] == table[i]);
                assert forall|j: int| 0 <= j < i - 1 implies (#[trigger] rest[j]).0 != code by {
                    assert(rest[j] == table[j + 1]);
                }
            }
        }
        if forall|i: int| 0 <= i < table.len() ==> (#[trigger] table[i]).0 != code {
            assert(table[0].0 != code);
            assert forall|i: int| 0 <= i < rest.len() implies (#[trigger] rest[i]).0 != code by {
                assert(rest[i] == table[i + 1]);
            }
        }
    }
}

/// The languages that are told apart, and what all others are called.
pub proof fn lemma_language_name(code: Option<Seq<char>>)
    ensures
        code is None ==> language_name(code) == "unknown"@,
        code matches Some(c) ==> language_name(code) == if c == "ara"@ {
            "ar"@
        } else if c == "cmn"@ {
            "zh"@
        } else if c == "deu"@ {
            "de"@
        } else if c == "eng"@ {
            "en"@
        } else if c == "fra"@ {
            "fr"@
        } else if c == "hin"@ {
            "hi"@
        } else if c == "ita"@ {
            "it"@
        } else if c == "jpn"@ {
            "ja"@
        } else if c == "kor"@ {
            "ko"@
        } else if c == "nld"@ {
            "nl"@
        } else if c == "pol"@ {
            "pl"@
        } else if c == "por"@ {
            "pt"@
        } else if c == "rus"@ {
            "ru"@
        } else if c == "spa"@ {
            "es"@
        } else if c == "swe"@ {
            "sv"@
        } else {
            "other"@
        },
{
    if let Some(c) = code {
        let table = known_languages();
        lemma_name_in(table, c);
        lemma_codes_differ();
        assert forall|i: int, j: int| 0 <= i < j < 15 implies (#[trigger] table[i]).0 != (
        #[trigger] table[j]).0 by {
            assert(table[i].0[0] != table[j].0[0] || table[i].0[1] != table[j].0[1]
                || table[i].0[2] != table[j].0[2]);
        }
        if exists|i: int| 0 <= i < 15 && (#[trigger] table[i]).0 == c {
            let i = choose|i: int| 0 <= i < 15 && (#[trigger] table[i]).0 == c;
            assert(name_in(table, c) == table[i].1);
        }
    }
}

proof fn lemma_codes_differ()
    ensures
        "eng"@ == seq!['e', 'n', 'g'],
        "spa"@ == seq!['s', 'p', 'a'],
        "fra"@ == seq!['f', 'r', 'a'],
        "deu"@ == seq!['d', 'e', 'u'],
        "por"@ == seq!['p', 'o', 'r'],
        "ita"@ == seq!['i', 't', 'a'],
        "rus"@ == seq!['r', 'u', 's'],
        "jpn"@ == seq!['j', 'p', 'n'],
        "kor"@ == seq!['k', 'o', 'r'],
        "cmn"@ == seq!['c', 'm', 'n'],
        "ara"@ == seq!['a', 'r', 'a'],
        "hin"@ == seq!['h', 'i', 'n'],
        "nld"@ == seq!['n', 'l', 'd'],
        "swe"@ == seq!['s', 'w', 'e'],
        "pol"@ == seq!['p', 'o', 'l'],
{
    reveal_strlit("eng");
    reveal_strlit("spa");
    reveal_strlit("fra");
    reveal_strlit("deu");
    reveal_strlit("por");
    reveal_strlit("ita");
    reveal_strlit("rus");
    reveal_strlit("jpn");
    reveal_strlit("kor");
    reveal_strlit("cmn");
    reveal_strlit("ara");
    reveal_strlit("hin");
    reveal_strlit("nld");
    reveal_strlit("swe");
    reveal_strlit("pol");
}

/// A text of at least twenty bytes is in the language that is detected in it, and a shorter one in
/// an unknown one.
pub proof fn lemma_language_of(text: Seq<char>)
    ensures
        encode_utf8(text).len() < 20 ==> language_of(text) == "unknown"@,
        encode_utf8(text).len() >= 20 ==> language_of(text) == language_name(detected_code(text)),
{
}

} // verus!
