//! URLs: their normal form, their parts, which of them belong to one site, and the root of a domain.

use crate::text;
use url::{ParseError, Url};
use vstd::prelude::*;
use vstd::string::*;

verus! {

/// The url crate's reason for refusing a URL.
#[verifier::external_type_specification]
#[verifier::external_body]
pub struct ExParseError(ParseError);

/// Why a URL cannot be used.
#[derive(Clone, Copy, Debug, PartialEq, Eq, Structural)]
pub enum UrlError {
    Invalid,
}

/// The text of the URL that the url crate parses from `url`, without its fragment; `None` where
/// `url` is no absolute URL.
pub uninterp spec fn without_fragment(url: Seq<char>) -> Option<Seq<char>>;

/// Scheme and domain of the URL that the url crate parses from `url`; it has no domain where its
/// host is an address or missing. `None` where `url` is no absolute URL.
pub uninterp spec fn parts_of(url: Seq<char>) -> Option<(Seq<char>, Option<Seq<char>>)>;

/// The text of the URL that `reference` stands for on the page `base`, as the url crate joins them;
/// `None` where `base` is no absolute URL or the two cannot be joined.
pub uninterp spec fn resolved(base: Seq<char>, reference: Seq<char>) -> Option<Seq<char>>;

/// The number of characters that a URL may have: the url crate counts those of an authority in 32
/// bits, one of which is a sign.
pub const MAX_URL: usize = 0x7fff_ffff;

/// The number of characters up to which an address is sure to fit, with everything in it escaped,
/// into the 32 bits in which the url crate counts.
pub const MAX_ADDRESS: usize = 0xff_ffff;

/// The number of characters of a label in Punycode that the url crate reads, behind its mark.
pub const MAX_PUNYCODE: usize = 2000;

/// `c` in lower case, where it is a letter of ASCII.
pub open spec fn ascii_lower(c: char) -> char {
    if 'A' as int <= c as int <= 'Z' as int {
        (c as int + 32) as char
    } else {
        c
    }
}

/// `s` begins with `prefix`, which is in lower case, in whatever case `s` is written.
pub open spec fn begins_with(s: Seq<char>, prefix: Seq<char>) -> bool {
    &&& prefix.len() <= s.len()
    &&& forall|i: int| 0 <= i < prefix.len() ==> ascii_lower(#[trigger] s[i]) == prefix[i]
}

/// `address` names a scheme that pages are fetched by, in whatever case it is written.
pub open spec fn web_scheme(address: Seq<char>) -> bool {
    begins_with(address, "http:"@) || begins_with(address, "https:"@)
}

/// `address` names a scheme that pages are fetched by, is not too long, and does not end with a
/// space or a control character, which the url crate drops at the end of a text only.
pub open spec fn ends_cleanly(address: Seq<char>) -> bool {
    web_scheme(address) && address.len() <= MAX_ADDRESS && address.last() as int > 0x20
}

/// What stands in `address` between its scheme and its path.
pub open spec fn authority_of(address: Seq<char>) -> Seq<char> {
    if "https://"@.is_prefix_of(address) {
        text::before_char(address.skip("https://"@.len() as int), '/')
    } else {
        text::before_char(address.skip("http://"@.len() as int), '/')
    }
}

/// The host in `authority`, and a port where there is one: what follows the credentials.
pub open spec fn host_in(authority: Seq<char>) -> Seq<char> {
    if authority.contains('@') {
        authority.skip(text::index_of_char(authority, '@') + 1)
    } else {
        authority
    }
}

/// A label, or the host, ends at position `i` of `host`.
pub open spec fn label_ends(host: Seq<char>, i: int) -> bool {
    i == host.len() || host[i] == '.' || host[i] == ':'
}

/// No label of `host` is longer in Punycode than the url crate reads.
pub open spec fn readable_host(host: Seq<char>) -> bool {
    forall|i: int| #[trigger]
        text::occurs_at(host, "xn--"@, i) ==> exists|j: int|
            i + 4 <= j <= i + 4 + MAX_PUNYCODE && j <= host.len() && #[trigger] label_ends(host, j)
}

/// `address` is one that pages are fetched by, and its host can be read back.
pub open spec fn readable_address(address: Seq<char>) -> bool {
    has_scheme(address) && readable_host(host_in(authority_of(address)))
}

/// `Url::parse`, `Url::set_fragment` with no fragment, and the URL's text. The contract names the
/// outcome, a function of the text that is parsed, and says five things of it. The text holds no
/// `#`, which is escaped or refused everywhere but before a fragment. What follows the first `#` of
/// an address that ends cleanly there has no say: each part of a URL is read up to it. A URL that
/// pages are fetched by is written with its scheme in lower case and two slashes. Its text is read
/// back as itself, as `Url::check_invariants` has it, unless a label of its host is longer in
/// Punycode than the crate reads. And so it is without a single slash at its end, but that an empty
/// path gets its slash again.
#[verifier::external_body]
fn strip_fragment(url: &str) -> (r: Result<String, ParseError>)
    requires
        url@.len() <= MAX_URL,
    ensures
        r matches Ok(s) ==> without_fragment(url@) == Some(s@) && !s@.contains('#'),
        r is Err ==> without_fragment(url@) is None,
        ends_cleanly(text::before_char(url@, '#')) ==> without_fragment(
            text::before_char(url@, '#'),
        ) == match r {
            Ok(s) => Some(s@),
            Err(_) => None,
        },
        r matches Ok(s) ==> web_scheme(url@) ==> has_scheme(s@),
        r matches Ok(s) ==> readable_address(s@) && s@.len() <= MAX_URL ==> without_fragment(s@)
            == Some(s@),
        r matches Ok(s) ==> readable_address(s@) && s@.len() <= MAX_URL && s@.last() == '/'
            && s@.drop_last().last() != '/' ==> (without_fragment(s@.drop_last()) == Some(s@.drop_last()) || without_fragment(
            s@.drop_last(),
        ) == Some(s@)),
{
    let mut parsed = Url::parse(url)?;
    parsed.set_fragment(None);
    Ok(parsed.to_string())
}

/// `Url::parse` with `Url::scheme` and `Url::domain`. The contract names the outcome, a function of
/// the text that is parsed.
#[verifier::external_body]
pub(crate) fn url_parts(url: &str) -> (r: Option<(String, Option<String>)>)
    requires
        url@.len() <= MAX_URL,
    ensures
        r.deep_view() == parts_of(url@),
{
    let parsed = Url::parse(url).ok()?;
    Some((parsed.scheme().to_string(), parsed.domain().map(|d| d.to_string())))
}

/// `Url::parse` on `base`, then `Url::join`. The contract names the outcome, a function of the two
/// texts.
#[verifier::external_body]
pub(crate) fn resolve(base: &str, reference: &str) -> (r: Option<String>)
    requires
        base@.len() <= MAX_URL,
        reference@.len() <= MAX_URL,
    ensures
        r.deep_view() == resolved(base@, reference@),
{
    Url::parse(base).ok()?.join(reference).ok().map(|url| url.to_string())
}

/// Whether `url` has no more characters than a URL may have.
pub fn url_fits(url: &str) -> (r: bool)
    ensures
        r == (url@.len() <= MAX_URL),
        url@.len() <= 2_000_000_000 ==> r,
{
    let a = text::chars_of(url);
    a.len() <= MAX_URL
}

/// `url` without the slash at its end, unless only the two slashes behind the scheme go before it.
pub open spec fn without_last_slash(url: Seq<char>) -> Seq<char> {
    if url.len() > 0 && url.last() == '/' && text::count_char(url, '/') > 2 {
        url.drop_last()
    } else {
        url
    }
}

/// The form in which the URL `url` is known: without a fragment and without a slash at its end.
pub open spec fn normalized(url: Seq<char>) -> Option<Seq<char>> {
    match without_fragment(url) {
        Some(s) => Some(without_last_slash(s)),
        None => None,
    }
}

/// `url` without the slash at its end.
pub fn drop_last_slash(url: &str) -> (r: String)
    ensures
        r@ == without_last_slash(url@),
{
    let a = text::chars_of(url);
    let n: usize = a.len();
    if n > 0 && a[n - 1] == '/' && text::count_chars(&a, '/') > 2 {
        text::text_of(&a, 0, n - 1)
    } else {
        url.to_owned()
    }
}

/// The form in which a URL is known. What is no absolute URL is refused. The normal form has no
/// fragment, and a fragment behind an address changes nothing. The normal form of a URL that pages
/// are fetched by is one too; where its host can be read back and it does not end with a slash, it
/// is its own normal form.
pub fn normalize_url(url_str: &str) -> (r: Result<String, UrlError>)
    requires
        url_str@.len() <= MAX_URL,
    ensures
        r matches Ok(s) ==> normalized(url_str@) == Some(s@),
        r matches Err(e) ==> e == UrlError::Invalid && normalized(url_str@) is None,
        r matches Ok(s) ==> !s@.contains('#'),
        ends_cleanly(text::before_char(url_str@, '#')) ==> normalized(url_str@) == normalized(
            text::before_char(url_str@, '#'),
        ),
        r matches Ok(s) ==> web_scheme(url_str@) ==> has_scheme(s@),
        r matches Ok(s) ==> readable_address(s@) && s@.len() < MAX_URL && s@.last() != '/'
            ==> normalized(s@) == Some(s@),
{
    match strip_fragment(url_str) {
        Ok(s) => {
            let normal = drop_last_slash(s.as_str());
            proof {
                if normal@.contains('#') {
                    let k = choose|k: int| 0 <= k < normal@.len() && normal@[k] == '#';
                    assert(s@[k] == '#');
                }
                if has_scheme(s@) && normal@ != s@ {
                    lemma_scheme_without_slash(s@);
                }
                if readable_address(normal@) && normal@.last() != '/' && normal@ != s@ {
                    lemma_readable_with_slash(normal@, s@);
                }
            }
            Ok(normal)
        },
        Err(_) => Err(UrlError::Invalid),
    }
}

proof fn lemma_scheme_without_slash(long: Seq<char>)
    requires
        has_scheme(long),
        text::count_char(long, '/') > 2,
    ensures
        has_scheme(long.drop_last()),
{
    let http = "http://"@;
    let https = "https://"@;
    let short = long.drop_last();
    reveal_strlit("http://");
    reveal_strlit("https://");
    reveal_with_fuel(text::count_char, 9);
    if http.is_prefix_of(long) {
        if long.len() == http.len() {
            assert(long == http);
        }
        assert(http == short.subrange(0, http.len() as int));
    } else {
        if long.len() == https.len() {
            assert(long == https);
        }
        assert(https == short.subrange(0, https.len() as int));
    }
}

proof fn lemma_readable_with_slash(short: Seq<char>, long: Seq<char>)
    requires
        readable_address(short),
        long.len() > 0,
        long.last() == '/',
        short == long.drop_last(),
    ensures
        readable_address(long),
{
    let http = "http://"@;
    let https = "https://"@;
    reveal_strlit("http://");
    reveal_strlit("https://");
    if https.is_prefix_of(short) {
        assert(https == long.subrange(0, https.len() as int));
        let rest = short.skip(https.len() as int);
        assert(long.skip(https.len() as int) == rest.push('/'));
        text::lemma_before_char_push(rest, '/');
    } else {
        assert(http == long.subrange(0, http.len() as int));
        assert(!https.is_prefix_of(long)) by {
            if https.is_prefix_of(long) {
                assert(long[4] == http[4]);
                assert(https[4] == long.subrange(0, https.len() as int)[4]);
            }
        }
        let rest = short.skip(http.len() as int);
        assert(long.skip(http.len() as int) == rest.push('/'));
        text::lemma_before_char_push(rest, '/');
    }
}

/// What a fragment is put behind is what stands before the first `#`.
pub proof fn lemma_before_fragment(url: Seq<char>, fragment: Seq<char>)
    requires
        !url.contains('#'),
    ensures
        text::before_char(url + seq!['#'] + fragment, '#') == url,
{
    text::lemma_before_char_is(url, '#', fragment);
}

/// `raw` begins with a scheme that pages are fetched by.
pub open spec fn has_scheme(raw: Seq<char>) -> bool {
    "http://"@.is_prefix_of(raw) || "https://"@.is_prefix_of(raw)
}

/// `raw`, with a scheme in front where it has none.
pub open spec fn with_scheme(raw: Seq<char>) -> Seq<char> {
    if has_scheme(raw) {
        raw
    } else {
        "https://"@ + raw
    }
}

/// `raw`, with a scheme in front where it has none.
pub fn ensure_scheme(raw: &str) -> (r: String)
    ensures
        r@ == with_scheme(raw@),
{
    if text::starts_with(raw, "http://") || text::starts_with(raw, "https://") {
        raw.to_owned()
    } else {
        text::concat("https://", raw)
    }
}

/// What `ensure_scheme` gives has a scheme, and it leaves alone what has one.
pub proof fn lemma_scheme_ensured(raw: Seq<char>)
    ensures
        has_scheme(with_scheme(raw)),
        with_scheme(with_scheme(raw)) == with_scheme(raw),
{
    assert("https://"@.is_prefix_of("https://"@ + raw));
}

/// The domain `link` is the domain `base` or lies below it.
pub open spec fn same_site(link: Seq<char>, base: Seq<char>) -> bool {
    link == base || (seq!['.'] + base).is_suffix_of(link)
}

/// Whether `link_domain` is `base_domain` or lies below it.
pub fn is_same_site(link_domain: &str, base_domain: &str) -> (r: bool)
    ensures
        r == same_site(link_domain@, base_domain@),
{
    let below = text::concat(".", base_domain);
    proof {
        reveal_strlit(".");
        assert("."@ == seq!['.']);
    }
    text::same_text(link_domain, base_domain) || text::ends_with(link_domain, below.as_str())
}

/// Every domain is of its own site, and what lies below a subdomain lies below the domain.
pub proof fn lemma_same_site(a: Seq<char>, b: Seq<char>, c: Seq<char>)
    ensures
        same_site(a, a),
        same_site(a, b) && same_site(b, c) ==> same_site(a, c),
        same_site(a, b) && same_site(b, a) ==> a == b,
{
    let dot = seq!['.'];
    if a != b && b != c && same_site(a, b) && same_site(b, c) {
        let tail = dot + c;
        assert((dot + b).is_suffix_of(a));
        assert forall|i: int| 0 <= i < tail.len() implies a[a.len() - tail.len() + i] == tail[i] by {
            assert(b.subrange(b.len() - tail.len(), b.len() as int)[i] == tail[i]);
            assert(b[b.len() - tail.len() + i] == tail[i]);
            let k = 1 + b.len() - tail.len() + i;
            assert(a.subrange(a.len() - (dot + b).len(), a.len() as int)[k] == (dot + b)[k]);
        }
        assert(a.subrange(a.len() - tail.len(), a.len() as int) == tail);
    }
}

/// The number of dots of a domain that stand before another label; a dot at its end stands before
/// none.
pub open spec fn inner_dots(domain: Seq<char>) -> nat {
    if domain.len() == 0 {
        0
    } else {
        text::count_char(domain.drop_last(), '.')
    }
}

/// The root of a domain: its last two labels, or the whole domain where it has fewer. That is its
/// longest ending with no more than one dot between labels.
pub open spec fn root_domain(domain: Seq<char>) -> Seq<char>
    decreases domain.len(),
{
    if inner_dots(domain) <= 1 {
        domain
    } else {
        root_domain(domain.drop_first())
    }
}

proof fn lemma_inner_dots_first(domain: Seq<char>)
    requires
        domain.len() > 1,
    ensures
        inner_dots(domain) == inner_dots(domain.drop_first()) + if domain[0] == '.' {
            1nat
        } else {
            0nat
        },
{
    text::lemma_count_first(domain.drop_last(), '.');
    assert(domain.drop_last().drop_first() == domain.drop_first().drop_last());
}

/// The root of a domain: its last two labels, or the whole domain where it has fewer.
pub fn root_of(domain: &str) -> (r: String)
    ensures
        r@ == root_domain(domain@),
{
    let a = text::chars_of(domain);
    let n: usize = a.len();
    if n == 0 {
        return domain.to_owned();
    }
    let mut inner = text::chars_of(domain);
    inner.pop();
    let mut dots: usize = text::count_chars(&inner, '.');
    let mut from: usize = 0;
    assert(inner@ == a@.drop_last());
    assert(a@.skip(0) == a@);
    while dots > 1
        invariant
            n == a.len(),
            from < n,
            dots == inner_dots(a@.skip(from as int)),
            root_domain(a@) == root_domain(a@.skip(from as int)),
        decreases n - from,
    {
        let ghost rest = a@.skip(from as int);
        proof {
            if rest.len() == 1 {
                assert(rest.drop_last() == Seq::<char>::empty());
            }
            lemma_inner_dots_first(rest);
            assert(rest.drop_first() == a@.skip(from + 1));
        }
        if a[from] == '.' {
            dots = dots - 1;
        }
        from = from + 1;
    }
    let r = text::text_of(&a, from, n);
    assert(r@ == a@.skip(from as int));
    r
}

/// A domain is of the site of its root, and a root is its own root.
pub proof fn lemma_root_is_of_the_site(domain: Seq<char>)
    ensures
        same_site(domain, root_domain(domain)),
        root_domain(root_domain(domain)) == root_domain(domain),
        inner_dots(root_domain(domain)) <= 1,
    decreases domain.len(),
{
    if inner_dots(domain) > 1 {
        let rest = domain.drop_first();
        let root = root_domain(domain);
        if domain.len() == 1 {
            assert(domain.drop_last() == Seq::<char>::empty());
        }
        lemma_inner_dots_first(domain);
        lemma_root_is_of_the_site(rest);
        let below = seq!['.'] + root;
        if rest == root {
            assert(below == domain.subrange(0, domain.len() as int));
        } else {
            assert(below == rest.subrange(rest.len() - below.len(), rest.len() as int));
            assert(below == domain.subrange(domain.len() - below.len(), domain.len() as int));
        }
        assert(below.is_suffix_of(domain));
    }
}

proof fn lemma_more_dots_above(front: Seq<char>, base: Seq<char>)
    requires
        inner_dots(base) >= 1,
    ensures
        inner_dots(front + seq!['.'] + base) >= 2,
        root_domain(front + seq!['.'] + base) == root_domain(base),
    decreases front.len(),
{
    let whole = front + seq!['.'] + base;
    lemma_inner_dots_first(whole);
    if front.len() == 0 {
        assert(whole.drop_first() == base);
        assert(whole[0] == '.');
    } else {
        lemma_more_dots_above(front.drop_first(), base);
        assert(whole.drop_first() == front.drop_first() + seq!['.'] + base);
    }
}

/// All domains of one site have the same root, where the site is of more than one label.
pub proof fn lemma_one_root_for_a_site(a: Seq<char>, b: Seq<char>, site: Seq<char>)
    requires
        inner_dots(site) >= 1,
        same_site(a, site),
        same_site(b, site),
    ensures
        root_domain(a) == root_domain(site),
        root_domain(b) == root_domain(site),
        root_domain(a) == root_domain(b),
{
    lemma_root_of_subdomain(a, site);
    lemma_root_of_subdomain(b, site);
}

proof fn lemma_root_of_subdomain(domain: Seq<char>, site: Seq<char>)
    requires
        inner_dots(site) >= 1,
        same_site(domain, site),
    ensures
        root_domain(domain) == root_domain(site),
{
    if domain != site {
        let below = seq!['.'] + site;
        let front = domain.take(domain.len() - below.len());
        assert(domain == front + seq!['.'] + site) by {
            assert(below == domain.subrange(domain.len() - below.len(), domain.len() as int));
            assert(domain == front + below);
            assert(front + below == front + seq!['.'] + site);
        }
        lemma_more_dots_above(front, site);
    }
}

/// An address that begins with a scheme that pages are fetched by is left alone; any other gets one
/// in front.
pub proof fn lemma_with_scheme(raw: Seq<char>)
    ensures
        with_scheme("http://"@ + raw) == "http://"@ + raw,
        with_scheme("https://"@ + raw) == "https://"@ + raw,
        (forall|rest: Seq<char>|
            raw != #[trigger] ("http://"@ + rest) && raw != "https://"@ + rest) ==> with_scheme(raw)
            == "https://"@ + raw,
{
    let http = "http://"@;
    let https = "https://"@;
    assert((http + raw).subrange(0, http.len() as int) == http);
    assert((https + raw).subrange(0, https.len() as int) == https);
    if http.is_prefix_of(raw) {
        assert(raw == http + raw.skip(http.len() as int));
    }
    if https.is_prefix_of(raw) {
        let rest = raw.skip(https.len() as int);
        assert(raw == https + rest);
        assert(http + rest == http + rest);
    }
}

/// A domain is of a site where it is the site, or some text, a dot and the site.
pub proof fn lemma_same_site_is(link: Seq<char>, base: Seq<char>)
    ensures
        same_site(link, base) <==> link == base || exists|p: Seq<char>|
            link == #[trigger] (p + seq!['.'] + base),
{
    let below = seq!['.'] + base;
    if below.is_suffix_of(link) {
        let p = link.take(link.len() - below.len());
        assert(link.subrange(link.len() - below.len(), link.len() as int) == below);
        assert(link == p + below);
        assert(link == p + seq!['.'] + base);
    }
    if exists|p: Seq<char>| link == #[trigger] (p + seq!['.'] + base) {
        let p = choose|p: Seq<char>| link == #[trigger] (p + seq!['.'] + base);
        assert(link.subrange(link.len() - below.len(), link.len() as int) == below);
    }
}

proof fn lemma_no_dots(s: Seq<char>)
    requires
        !s.contains('.'),
    ensures
        text::count_char(s, '.') == 0,
    decreases s.len(),
{
    if s.len() > 0 {
        let front = s.drop_last();
        if front.contains('.') {
            let k = choose|k: int| 0 <= k < front.len() && front[k] == '.';
            assert(s[k] == '.');
        }
        lemma_no_dots(front);
        assert(s.contains(s[s.len() - 1]));
    }
}

proof fn lemma_count_concat(a: Seq<char>, b: Seq<char>, c: char)
    ensures
        text::count_char(a + b, c) == text::count_char(a, c) + text::count_char(b, c),
    decreases b.len(),
{
    if b.len() == 0 {
        assert(a + b == a);
    } else {
        lemma_count_concat(a, b.drop_last(), c);
        assert((a + b).drop_last() == a + b.drop_last());
    }
}

proof fn lemma_inner_dots_of_two(label: Seq<char>, top: Seq<char>)
    requires
        !label.contains('.'),
        !top.contains('.'),
        top.len() > 0,
    ensures
        inner_dots(label + seq!['.'] + top) == 1,
        inner_dots(top) == 0,
{
    let short = top.drop_last();
    assert(!short.contains('.')) by {
        if short.contains('.') {
            let k = choose|k: int| 0 <= k < short.len() && short[k] == '.';
            assert(top[k] == '.');
        }
    }
    let pair = label + seq!['.'] + top;
    assert(pair.drop_last() == label + seq!['.'] + short);
    lemma_count_concat(label + seq!['.'], short, '.');
    assert((label + seq!['.']).drop_last() == label);
    lemma_no_dots(label);
    lemma_no_dots(short);
}

/// The root of a domain is its last two labels, however many stand before them, with the dot that
/// may stand at the end. A domain of two labels or of one is its own root.
pub proof fn lemma_root_is_two_labels(front: Seq<char>, label: Seq<char>, top: Seq<char>)
    requires
        !label.contains('.'),
        !top.contains('.'),
        top.len() > 0,
    ensures
        root_domain(front + seq!['.'] + (label + seq!['.'] + top)) == label + seq!['.'] + top,
        root_domain(label + seq!['.'] + top) == label + seq!['.'] + top,
        root_domain(top) == top,
        root_domain(front + seq!['.'] + (label + seq!['.'] + top.push('.'))) == label + seq!['.']
            + top.push('.'),
        root_domain(label + seq!['.'] + top.push('.')) == label + seq!['.'] + top.push('.'),
        root_domain(top.push('.')) == top.push('.'),
{
    lemma_inner_dots_of_two(label, top);
    lemma_more_dots_above(front, label + seq!['.'] + top);
    let ended = label + seq!['.'] + top.push('.');
    assert(ended.drop_last() == label + seq!['.'] + top);
    assert(top.push('.').drop_last() == top);
    lemma_no_dots(top);
    lemma_no_dots(label);
    lemma_count_concat(label + seq!['.'], top, '.');
    assert((label + seq!['.']).drop_last() == label);
    lemma_more_dots_above(front, ended);
}

/// The number of slashes of a text.
pub open spec fn slashes(s: Seq<char>) -> nat {
    s.filter(|c: char| c == '/').len()
}

/// The slash at the end of a URL is dropped where two others go before it, and only one slash is.
/// A URL without one, or with no two others, stays as it is.
pub proof fn lemma_without_last_slash(s: Seq<char>)
    ensures
        slashes(s) >= 2 ==> without_last_slash(s.push('/')) == s,
        slashes(s) < 2 ==> without_last_slash(s.push('/')) == s.push('/'),
        s.len() == 0 || s.last() != '/' ==> without_last_slash(s) == s,
{
    text::lemma_count_char(s, '/');
    assert(s.push('/').drop_last() == s);
    assert(text::count_char(s.push('/'), '/') == text::count_char(s, '/') + 1);
}

/// The normal form of a URL is its text without fragment, but for a slash at the end that two
/// others go before. What is no URL has none.
pub proof fn lemma_normalized(url: Seq<char>, s: Seq<char>)
    ensures
        without_fragment(url) is None <==> normalized(url) is None,
        without_fragment(url) == Some(s) && (s.len() == 0 || s.last() != '/') ==> normalized(url)
            == Some(s),
        without_fragment(url) == Some(s.push('/')) && slashes(s) >= 2 ==> normalized(url) == Some(s),
        without_fragment(url) == Some(s.push('/')) && slashes(s) < 2 ==> normalized(url) == Some(
            s.push('/'),
        ),
{
    lemma_without_last_slash(s);
}

} // verus!
