use flooglyflup::text;

fn owned(parts: &[&str]) -> Vec<String> {
    parts.iter().map(|p| p.to_string()).collect()
}

#[test]
fn white_space_is_that_of_unicode() {
    for u in 0..0x110000u32 {
        if let Some(c) = char::from_u32(u) {
            assert_eq!(text::is_white_space(c), c.is_whitespace(), "{u:x}");
        }
    }
}

#[test]
fn trimming_is_that_of_std() {
    for s in ["", " ", "a", " a ", "\u{3000}a b\u{a0}\n", "\t\r\n", "äö\u{85}", "\u{200b}x "] {
        assert_eq!(text::trim(s), s.trim());
        assert_eq!(text::trim(text::trim(s)), text::trim(s));
    }
}

#[test]
fn lines_are_those_of_std() {
    for s in ["", "\n", "a", "a\n", "a\nb", "a\r\nb\r", "\n\n", "a\r\r\nb", "\r", "\r\n", "x\n\ny\r\n"] {
        assert_eq!(text::lines(s), s.lines().map(|l| l.to_string()).collect::<Vec<_>>(), "{s:?}");
    }
}

#[test]
fn words_are_those_of_std() {
    for s in ["", "  ", "one", " one  two\u{2003}three\n", "ä\u{a0}ö"] {
        let expected: Vec<String> = s.split_whitespace().map(|w| w.to_string()).collect();
        assert_eq!(text::words(s), expected);
    }
}

#[test]
fn searching_is_that_of_std() {
    for (s, pat) in [("", ""), ("abc", ""), ("abc", "bc"), ("aab", "ab"), ("abc", "abcd"), ("äöü", "ö"), ("", "x")] {
        assert_eq!(text::contains(s, pat), s.contains(pat));
        assert_eq!(text::starts_with(s, pat), s.starts_with(pat));
        assert_eq!(text::ends_with(s, pat), s.ends_with(pat));
    }
}

#[test]
fn positions_are_counted_in_characters() {
    let s = text::chars_of("äöü-ö");
    assert_eq!(text::find_chars(&s, &text::chars_of("ö")), Some(1));
    assert_eq!(text::find_chars(&s, &text::chars_of("-ö")), Some(3));
    assert_eq!(text::find_chars(&s, &text::chars_of("x")), None);
    assert_eq!(text::count_chars(&s, 'ö'), 2);
}

#[test]
fn removing_is_that_of_std() {
    for (s, pat) in [("aaa", "aa"), ("xabxab", "ab"), ("abc", "d"), ("ababa", "aba"), ("", "a")] {
        assert_eq!(text::remove_all(s, pat), s.replace(pat, ""));
    }
}

#[test]
fn joining_is_that_of_std() {
    for parts in [vec![], vec!["a"], vec!["a", "", "b"], vec!["", ""]] {
        assert_eq!(text::join(&owned(&parts), "--"), parts.join("--"));
    }
}

#[test]
fn order_is_that_of_std() {
    let all = ["", "a", "ab", "b", "ä", "\u{ffff}", "\u{10000}", "aä", "z"];
    for a in all {
        for b in all {
            assert_eq!(text::text_lt(a, b), a < b, "{a:?} {b:?}");
            assert_eq!(text::same_text(a, b), a == b);
        }
    }
}

#[test]
fn separate_lines_are_read_back() {
    let lines = owned(&["a", "", "b c", "last\r"]);
    assert_eq!(text::lines(&text::join(&lines, "\n")), lines);
    let with_feed = owned(&["a\nb"]);
    assert_eq!(text::lines(&text::join(&with_feed, "\n")), owned(&["a", "b"]));
    let empty_last = owned(&["a", ""]);
    assert_eq!(text::lines(&text::join(&empty_last, "\n")), owned(&["a"]));
    let with_return = owned(&["a\r", "b"]);
    assert_eq!(text::lines(&text::join(&with_return, "\n")), owned(&["a", "b"]));
}

#[test]
fn words_joined_by_spaces_are_read_back() {
    let words = text::words("  one\ttwo \u{3000} three ");
    assert_eq!(words, owned(&["one", "two", "three"]));
    assert_eq!(text::words(&text::join(&words, " ")), words);
}

#[test]
fn lists_have_comments_and_blank_lines() {
    let list = "# head\n a.example # first\n\n\t# nothing\r\nb.example\r\n  ";
    assert_eq!(text::list_entries(list), owned(&["a.example", "b.example"]));
    assert_eq!(text::until_char("x#y#z", '#'), "x");
    assert_eq!(text::until_char("xyz", '#'), "xyz");
}

#[test]
fn parts_of_texts() {
    let s = text::chars_of("äbc");
    assert_eq!(text::text_of(&s, 1, 3), "bc");
    assert_eq!(text::concat("ä", "b"), "äb");
}
