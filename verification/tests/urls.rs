use flooglyflup::urls::{self, UrlError};

#[test]
fn normal_form_has_no_fragment_and_no_last_slash() {
    assert_eq!(urls::normalize_url("https://Example.com/a/#top").unwrap(), "https://example.com/a");
    assert_eq!(urls::normalize_url("https://example.com").unwrap(), "https://example.com");
    assert_eq!(urls::normalize_url("https://example.com/").unwrap(), "https://example.com");
    assert_eq!(urls::normalize_url("https://example.com/a?b=/").unwrap(), "https://example.com/a?b=");
    assert_eq!(urls::normalize_url("https://example.com/../x").unwrap(), "https://example.com/x");
    assert_eq!(urls::normalize_url("https://a.com//").unwrap(), "https://a.com/");
}

#[test]
fn what_is_no_url_is_refused() {
    assert_eq!(urls::normalize_url("example.com"), Err(UrlError::Invalid));
    assert_eq!(urls::normalize_url(""), Err(UrlError::Invalid));
    assert_eq!(urls::normalize_url("https://"), Err(UrlError::Invalid));
}

#[test]
fn a_slash_is_dropped_behind_two_others() {
    assert_eq!(urls::drop_last_slash("a://b/"), "a://b");
    assert_eq!(urls::drop_last_slash("a://"), "a://");
    assert_eq!(urls::drop_last_slash("a/b"), "a/b");
    assert_eq!(urls::drop_last_slash(""), "");
}

#[test]
fn a_scheme_is_put_in_front() {
    assert_eq!(urls::ensure_scheme("example.com"), "https://example.com");
    assert_eq!(urls::ensure_scheme("http://example.com"), "http://example.com");
    assert_eq!(urls::ensure_scheme("https://example.com"), "https://example.com");
    assert_eq!(urls::ensure_scheme("ftp://example.com"), "https://ftp://example.com");
    let once = urls::ensure_scheme("HTTP://x");
    assert_eq!(urls::ensure_scheme(&once), once);
}

#[test]
fn subdomains_are_of_the_same_site() {
    assert!(urls::is_same_site("example.com", "example.com"));
    assert!(urls::is_same_site("a.b.example.com", "b.example.com"));
    assert!(urls::is_same_site("a.b.example.com", "example.com"));
    assert!(!urls::is_same_site("example.com", "a.example.com"));
    assert!(!urls::is_same_site("notexample.com", "example.com"));
}

#[test]
fn the_root_of_a_domain_is_its_last_two_labels() {
    assert_eq!(urls::root_of("docs.example.com"), "example.com");
    assert_eq!(urls::root_of("a.b.c.example.com"), "example.com");
    assert_eq!(urls::root_of("example.com"), "example.com");
    assert_eq!(urls::root_of("localhost"), "localhost");
    assert_eq!(urls::root_of(""), "");
    assert_eq!(urls::root_of("docs.example.com."), "example.com.");
    assert_eq!(urls::root_of("example.com."), "example.com.");
}

#[test]
fn a_domain_is_of_the_site_of_its_root() {
    for domain in ["docs.example.com", "example.com", "localhost", "a.b.c.d", "x.example.com.", ""] {
        let root = urls::root_of(domain);
        assert!(urls::is_same_site(domain, &root));
        assert_eq!(urls::root_of(&root), root);
    }
    assert_eq!(urls::root_of("a.docs.example.com"), urls::root_of("b.example.com"));
}

const ADDRESSES: [&str; 18] = [
    "https://example.com",
    "https://example.com/",
    "http://example.com:80/a/",
    "http://example.com:8080/a//",
    "https://u:p@example.com/a/../b/./c/?q=/",
    "https://example.com?",
    "https://example.com/?/",
    "https://example.com/a%2e%2E/%2e%2e/x",
    "https://EXAMPLE.com/\\a\\b",
    "https://127.1/x",
    "https://[::1]:9/",
    "https://b\u{fc}cher.example/\u{e4} \u{f6}?\u{fc}'",
    "https://example.com/a\tb\nc",
    "https://example.com/\"<>`{}|^",
    "https://ex%61mple.com/",
    "https://example.com/a/..",
    "https://example.com.//x",
    "https://@example.com",
];

#[test]
fn normal_forms_are_their_own_normal_forms() {
    for address in ADDRESSES {
        let normal = urls::normalize_url(address).unwrap();
        assert!(!normal.contains('#'), "{normal}");
        if !normal.ends_with('/') {
            assert_eq!(urls::normalize_url(&normal).unwrap(), normal);
        }
    }
}

#[test]
fn fragments_have_no_say() {
    for address in ADDRESSES {
        for fragment in ["", "top", "a#b", "\u{e4}?/ x", "\t"] {
            let with = format!("{address}#{fragment}");
            assert_eq!(urls::normalize_url(&with), urls::normalize_url(address), "{with}");
        }
    }
    for broken in ["https://", "https://@", "https://[::1", "https://a:x"] {
        assert_eq!(urls::normalize_url(&format!("{broken}#f")), Err(UrlError::Invalid));
        assert_eq!(urls::normalize_url(broken), Err(UrlError::Invalid));
    }
}

#[test]
fn labels_that_are_too_long_in_punycode_are_not_read_back() {
    let label: String = (0..900u32).map(|i| char::from_u32(0x20000 + i * 7919 % 40000).unwrap()).collect();
    let normal = urls::normalize_url(&format!("https://{label}.example/x")).unwrap();
    assert!(normal.contains("xn--"));
    assert_eq!(urls::normalize_url(&normal), Err(UrlError::Invalid));
}

#[test]
fn the_scheme_may_be_written_in_any_way() {
    for address in ["HTTP:example.com/x", "https:example.com", "hTTps:/example.com/a/", "http:////example.com//"] {
        let normal = urls::normalize_url(address).unwrap();
        assert!(normal.starts_with("http://example.com") || normal.starts_with("https://example.com"));
        for fragment in ["", "top", "a#b", "/"] {
            let with = format!("{address}#{fragment}");
            assert_eq!(urls::normalize_url(&with).unwrap(), normal, "{with}");
        }
        if !normal.ends_with('/') {
            assert_eq!(urls::normalize_url(&normal).unwrap(), normal);
        }
    }
    assert_eq!(urls::normalize_url("HTTP:example.com/x#f").unwrap(), "http://example.com/x");
}

#[test]
fn hosts_in_punycode_are_read_back() {
    let normal = urls::normalize_url("https://b\u{fc}cher.example/x#y").unwrap();
    assert_eq!(normal, "https://xn--bcher-kva.example/x");
    assert_eq!(urls::normalize_url(&normal).unwrap(), normal);
    let label: String = (0..300u32).map(|i| char::from_u32(0x20000 + i * 7919 % 40000).unwrap()).collect();
    let long = urls::normalize_url(&format!("https://{label}.example/x")).unwrap();
    assert!(long.len() > 300 && long.len() < 2000);
    assert_eq!(urls::normalize_url(&long).unwrap(), long);
}

#[test]
fn ordinary_urls_are_not_too_long() {
    assert!(urls::url_fits(""));
    assert!(urls::url_fits("https://example.com"));
    assert!(urls::url_fits(&"x".repeat(100_000)));
}
