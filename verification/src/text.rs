//! Text as a sequence of characters: searching, trimming, splitting, joining and ordering.

use vstd::prelude::*;
use vstd::string::*;

verus! {

/// `pat` stands in `s` at position `i`.
pub open spec fn occurs_at(s: Seq<char>, pat: Seq<char>, i: int) -> bool {
    0 <= i && i + pat.len() <= s.len() && s.subrange(i, i + pat.len()) == pat
}

/// `pat` stands somewhere in `s`.
pub open spec fn contains_text(s: Seq<char>, pat: Seq<char>) -> bool {
    exists|i: int| occurs_at(s, pat, i)
}

/// `i` is the leftmost position of `pat` in `s`.
pub open spec fn first_at(s: Seq<char>, pat: Seq<char>, i: int) -> bool {
    occurs_at(s, pat, i) && forall|j: int| 0 <= j < i ==> !occurs_at(s, pat, j)
}

/// The leftmost position of `pat` in `s`, where there is one.
pub open spec fn position(s: Seq<char>, pat: Seq<char>) -> Option<int> {
    if contains_text(s, pat) {
        Some(choose|i: int| first_at(s, pat, i))
    } else {
        None
    }
}

/// The number of characters before the first `c`, or the length of `s` where there is no `c`.
pub open spec fn index_of_char(s: Seq<char>, c: char) -> int
    decreases s.len(),
{
    if s.len() == 0 || s[0] == c {
        0
    } else {
        1 + index_of_char(s.drop_first(), c)
    }
}

/// The number of `c` in `s`.
pub open spec fn count_char(s: Seq<char>, c: char) -> nat
    decreases s.len(),
{
    if s.len() == 0 {
        0
    } else {
        count_char(s.drop_last(), c) + if s.last() == c {
            1nat
        } else {
            0nat
        }
    }
}

/// What stands in `s` before its first `c`; all of `s` where there is no `c`.
pub open spec fn before_char(s: Seq<char>, c: char) -> Seq<char> {
    s.take(index_of_char(s, c))
}

/// The Unicode property `White_Space`.
pub open spec fn white_space(c: char) -> bool {
    let u = c as int;
    ||| 0x9 <= u <= 0xd
    ||| u == 0x20
    ||| u == 0x85
    ||| u == 0xa0
    ||| u == 0x1680
    ||| 0x2000 <= u <= 0x200a
    ||| u == 0x2028
    ||| u == 0x2029
    ||| u == 0x202f
    ||| u == 0x205f
    ||| u == 0x3000
}

/// `s` without its leading white space.
pub open spec fn trim_start(s: Seq<char>) -> Seq<char>
    decreases s.len(),
{
    if s.len() > 0 && white_space(s[0]) {
        trim_start(s.drop_first())
    } else {
        s
    }
}

/// `s` without its trailing white space.
pub open spec fn trim_end(s: Seq<char>) -> Seq<char>
    decreases s.len(),
{
    if s.len() > 0 && white_space(s.last()) {
        trim_end(s.drop_last())
    } else {
        s
    }
}

/// `s` without white space at either end.
pub open spec fn trimmed(s: Seq<char>) -> Seq<char> {
    trim_end(trim_start(s))
}

/// A line that a line feed ended: a carriage return just before the line feed is no part of it.
pub open spec fn without_carriage_return(s: Seq<char>) -> Seq<char> {
    if s.len() > 0 && s.last() == '\r' {
        s.drop_last()
    } else {
        s
    }
}

/// The lines of `s`. A line ends with a line feed, or with a carriage return and a line feed; the
/// last one may end with the text.
pub open spec fn lines_of(s: Seq<char>) -> Seq<Seq<char>>
    decreases s.len(),
{
    let n = index_of_char(s, '\n');
    if s.len() == 0 {
        seq![]
    } else if n < 0 || n >= s.len() {
        seq![s]
    } else {
        seq![without_carriage_return(s.take(n))] + lines_of(s.skip(n + 1))
    }
}

/// The length of the longest prefix of `s` all of whose characters `keep` accepts.
pub open spec fn run_len(s: Seq<char>, keep: spec_fn(char) -> bool) -> nat
    decreases s.len(),
{
    if s.len() == 0 || !keep(s[0]) {
        0
    } else {
        1 + run_len(s.drop_first(), keep)
    }
}

/// The maximal runs in `s` of characters that `keep` accepts, from left to right.
pub open spec fn runs_of(s: Seq<char>, keep: spec_fn(char) -> bool) -> Seq<Seq<char>>
    decreases s.len(),
{
    let n = run_len(s, keep) as int;
    if s.len() == 0 {
        seq![]
    } else if n <= 0 || n > s.len() {
        runs_of(s.drop_first(), keep)
    } else {
        seq![s.take(n)] + runs_of(s.skip(n), keep)
    }
}

/// The characters that a word is made of.
pub open spec fn not_white_space() -> spec_fn(char) -> bool {
    |c: char| !white_space(c)
}

/// The words of `s`: the maximal runs without white space.
pub open spec fn words_of(s: Seq<char>) -> Seq<Seq<char>> {
    runs_of(s, not_white_space())
}

/// The entries of a list that has one on each line: what stands before a `#`, without white space
/// at either end. A line that holds nothing else is skipped.
pub open spec fn entries_in(lines: Seq<Seq<char>>) -> Seq<Seq<char>>
    decreases lines.len(),
{
    if lines.len() == 0 {
        seq![]
    } else {
        let rest = entries_in(lines.drop_last());
        let entry = trimmed(before_char(lines.last(), '#'));
        if entry.len() == 0 {
            rest
        } else {
            rest.push(entry)
        }
    }
}

/// The entries of the list `s`.
pub open spec fn entries_of(s: Seq<char>) -> Seq<Seq<char>> {
    entries_in(lines_of(s))
}

/// What `str::to_lowercase` makes of a text: Unicode's lower case, which depends on the
/// neighbours of a letter for some letters and may be longer or shorter than the text.
pub uninterp spec fn lowercase(s: Seq<char>) -> Seq<char>;

/// `parts` one after the other, with `sep` between neighbours.
pub open spec fn joined(parts: Seq<Seq<char>>, sep: Seq<char>) -> Seq<char>
    decreases parts.len(),
{
    if parts.len() == 0 {
        seq![]
    } else if parts.len() == 1 {
        parts[0]
    } else {
        joined(parts.drop_last(), sep) + sep + parts.last()
    }
}

/// `s` without the occurrences of `pat`, taken from left to right and without overlap.
pub open spec fn without_all(s: Seq<char>, pat: Seq<char>) -> Seq<char>
    decreases s.len(),
{
    if pat.len() == 0 || s.len() == 0 {
        s
    } else if occurs_at(s, pat, 0) {
        without_all(s.skip(pat.len() as int), pat)
    } else {
        seq![s[0]] + without_all(s.drop_first(), pat)
    }
}

/// `a` comes before `b` in the order of their code points, which is that of their UTF-8 bytes.
pub open spec fn lex_lt(a: Seq<char>, b: Seq<char>) -> bool
    decreases a.len(),
{
    if b.len() == 0 {
        false
    } else if a.len() == 0 {
        true
    } else if a[0] != b[0] {
        (a[0] as int) < (b[0] as int)
    } else {
        lex_lt(a.drop_first(), b.drop_first())
    }
}

/// `a` is `b` or comes before it.
pub open spec fn lex_le(a: Seq<char>, b: Seq<char>) -> bool {
    !lex_lt(b, a)
}

/// `String::push` puts one character behind the text.
pub assume_specification[ String::push ](s: &mut String, c: char)
    ensures
        final(s)@ == old(s)@.push(c),
;

/// `str::to_lowercase` gives the lower case of a text, a function of the text alone. Nothing is said
/// of which characters it changes.
pub assume_specification[ str::to_lowercase ](s: &str) -> (r: String)
    ensures
        r@ == lowercase(s@),
;

/// The characters of `s`.
pub fn chars_of(s: &str) -> (r: Vec<char>)
    ensures
        r@ == s@,
{
    let mut r: Vec<char> = Vec::new();
    for c in it: s.chars()
        invariant
            it.seq() == s@,
            r@ == s@.take(it.index() as int),
    {
        r.push(c);
    }
    assert(s@.take(s@.len() as int) == s@);
    r
}

/// The text made of `s[from..to]`.
pub fn text_of(s: &Vec<char>, from: usize, to: usize) -> (r: String)
    requires
        from <= to <= s.len(),
    ensures
        r@ == s@.subrange(from as int, to as int),
{
    let mut r = String::new();
    let mut i: usize = from;
    while i < to
        invariant
            from <= i <= to <= s.len(),
            r@ == s@.subrange(from as int, i as int),
        decreases to - i,
    {
        r.push(s[i]);
        i = i + 1;
    }
    r
}

/// Whether `s` holds the same characters as `t`.
pub fn same_text(s: &str, t: &str) -> (r: bool)
    ensures
        r == (s@ == t@),
{
    let a = chars_of(s);
    let b = chars_of(t);
    same_chars(&a, &b)
}

fn same_chars(a: &Vec<char>, b: &Vec<char>) -> (r: bool)
    ensures
        r == (a@ == b@),
{
    if a.len() != b.len() {
        return false;
    }
    let mut i: usize = 0;
    while i < a.len()
        invariant
            i <= a.len(),
            a.len() == b.len(),
            forall|j: int| 0 <= j < i ==> a@[j] == b@[j],
        decreases a.len() - i,
    {
        if a[i] != b[i] {
            return false;
        }
        i = i + 1;
    }
    assert(a@ == b@);
    true
}

/// Whether `pat` stands in `s` at position `at`.
pub(crate) fn matches_at(s: &Vec<char>, pat: &Vec<char>, at: usize) -> (r: bool)
    ensures
        r == occurs_at(s@, pat@, at as int),
{
    if at > s.len() || pat.len() > s.len() - at {
        return false;
    }
    let mut i: usize = 0;
    while i < pat.len()
        invariant
            i <= pat.len(),
            at + pat.len() <= s.len(),
            forall|j: int| 0 <= j < i ==> s@[at + j] == pat@[j],
        decreases pat.len() - i,
    {
        if s[at + i] != pat[i] {
            assert(s@.subrange(at as int, at + pat@.len())[i as int] == s@[at + i]);
            return false;
        }
        i = i + 1;
    }
    assert(s@.subrange(at as int, at + pat@.len()) == pat@);
    true
}

/// The leftmost position of `pat` in `s`.
pub fn find_chars(s: &Vec<char>, pat: &Vec<char>) -> (r: Option<usize>)
    ensures
        r matches Some(i) ==> position(s@, pat@) == Some(i as int) && first_at(s@, pat@, i as int),
        r is None ==> position(s@, pat@) is None,
{
    if pat.len() > s.len() {
        return None;
    }
    let last: usize = s.len() - pat.len();
    let mut i: usize = 0;
    loop
        invariant
            i <= last,
            last == s.len() - pat.len(),
            forall|j: int| 0 <= j < i ==> !occurs_at(s@, pat@, j),
        decreases last - i,
    {
        if matches_at(s, pat, i) {
            proof {
                assert(first_at(s@, pat@, i as int));
                let p = choose|p: int| first_at(s@, pat@, p);
                assert(!(p < i) && !(i < p));
            }
            return Some(i);
        }
        if i == last {
            return None;
        }
        i = i + 1;
    }
}

/// Whether `pat` stands somewhere in `s`.
pub fn contains(s: &str, pat: &str) -> (r: bool)
    ensures
        r == contains_text(s@, pat@),
{
    let a = chars_of(s);
    let b = chars_of(pat);
    find_chars(&a, &b).is_some()
}

/// Whether `s` begins with `pat`.
pub fn starts_with(s: &str, pat: &str) -> (r: bool)
    ensures
        r == pat@.is_prefix_of(s@),
{
    let a = chars_of(s);
    let b = chars_of(pat);
    matches_at(&a, &b, 0)
}

/// Whether `s` ends with `pat`.
pub fn ends_with(s: &str, pat: &str) -> (r: bool)
    ensures
        r == pat@.is_suffix_of(s@),
{
    let a = chars_of(s);
    let b = chars_of(pat);
    if b.len() > a.len() {
        return false;
    }
    matches_at(&a, &b, a.len() - b.len())
}

/// `a` and `b` one behind the other.
pub fn concat(a: &str, b: &str) -> (r: String)
    ensures
        r@ == a@ + b@,
{
    let mut r = a.to_owned();
    r.append(b);
    r
}

/// Whether `c` is white space.
pub fn is_white_space(c: char) -> (r: bool)
    ensures
        r == white_space(c),
{
    let u = c as u32;
    (0x9 <= u && u <= 0xd) || u == 0x20 || u == 0x85 || u == 0xa0 || u == 0x1680 || (0x2000 <= u
        && u <= 0x200a) || u == 0x2028 || u == 0x2029 || u == 0x202f || u == 0x205f || u == 0x3000
}

/// `s` without white space at either end.
pub fn trim<'a>(s: &'a str) -> (r: &'a str)
    ensures
        r@ == trimmed(s@),
{
    let a = chars_of(s);
    let mut from: usize = 0;
    assert(a@.skip(0) == a@);
    while from < a.len() && is_white_space(a[from])
        invariant
            a@ == s@,
            from <= a.len(),
            trim_start(a@) == trim_start(a@.skip(from as int)),
        decreases a.len() - from,
    {
        assert(a@.skip(from as int).drop_first() == a@.skip(from + 1));
        from = from + 1;
    }
    assert(trim_start(a@) == a@.skip(from as int));
    let mut to: usize = a.len();
    assert(a@.subrange(from as int, to as int) == a@.skip(from as int));
    while from < to && is_white_space(a[to - 1])
        invariant
            a@ == s@,
            from <= to <= a.len(),
            trim_end(a@.skip(from as int)) == trim_end(a@.subrange(from as int, to as int)),
        decreases to - from,
    {
        assert(a@.subrange(from as int, to as int).drop_last() == a@.subrange(from as int, to - 1));
        to = to - 1;
    }
    s.substring_char(from, to)
}

/// The position of the first `c` in `s[from..]`, counted from `from`; the length of that part
/// where there is none.
fn find_char_from(s: &Vec<char>, c: char, from: usize) -> (r: usize)
    requires
        from <= s.len(),
    ensures
        r == index_of_char(s@.skip(from as int), c),
        from + r <= s.len(),
{
    let mut i: usize = from;
    while i < s.len() && s[i] != c
        invariant
            from <= i <= s.len(),
            index_of_char(s@.skip(from as int), c) == i - from + index_of_char(
                s@.skip(i as int),
                c,
            ),
        decreases s.len() - i,
    {
        assert(s@.skip(i as int).drop_first() == s@.skip(i + 1));
        i = i + 1;
    }
    i - from
}

/// The number of `c` in `s`.
pub fn count_chars(s: &Vec<char>, c: char) -> (r: usize)
    ensures
        r == count_char(s@, c),
{
    let mut n: usize = 0;
    let mut i: usize = 0;
    while i < s.len()
        invariant
            n <= i <= s.len(),
            n == count_char(s@.take(i as int), c),
        decreases s.len() - i,
    {
        assert(s@.take(i + 1).drop_last() == s@.take(i as int));
        if s[i] == c {
            n = n + 1;
        }
        i = i + 1;
    }
    assert(s@.take(s.len() as int) == s@);
    n
}

/// What stands in `s` before its first `c`.
pub fn until_char<'a>(s: &'a str, c: char) -> (r: &'a str)
    ensures
        r@ == before_char(s@, c),
{
    let a = chars_of(s);
    assert(a@.skip(0) == a@);
    let n = find_char_from(&a, c, 0);
    s.substring_char(0, n)
}

/// The lines of `s`.
pub fn lines(s: &str) -> (r: Vec<String>)
    ensures
        r.deep_view() == lines_of(s@),
{
    let a = chars_of(s);
    let mut r: Vec<String> = Vec::new();
    let mut from: usize = 0;
    assert(a@.skip(0) == a@);
    assert(r.deep_view() + lines_of(a@) == lines_of(a@));
    while from < a.len()
        invariant
            from <= a.len(),
            r.deep_view() + lines_of(a@.skip(from as int)) == lines_of(a@),
        decreases a.len() - from,
    {
        let ghost before = r.deep_view();
        let ghost rest = a@.skip(from as int);
        let n = find_char_from(&a, '\n', from);
        let line: String;
        let next: usize;
        if n == a.len() - from {
            line = text_of(&a, from, a.len());
            next = a.len();
            assert(line@ == rest);
            assert(lines_of(rest) == seq![line@] + lines_of(a@.skip(next as int)));
        } else {
            let to: usize = if n > 0 && a[from + n - 1] == '\r' {
                from + n - 1
            } else {
                from + n
            };
            line = text_of(&a, from, to);
            next = from + n + 1;
            assert(rest.take(n as int) == a@.subrange(from as int, from + n));
            assert(line@ == without_carriage_return(rest.take(n as int)));
            assert(rest.skip(n + 1) == a@.skip(next as int));
            assert(lines_of(rest) == seq![line@] + lines_of(a@.skip(next as int)));
        }
        let ghost line_view = line@;
        r.push(line);
        assert(r.deep_view() == before + seq![line_view]);
        assert(before + (seq![line_view] + lines_of(a@.skip(next as int))) == (before + seq![
            line_view,
        ]) + lines_of(a@.skip(next as int)));
        from = next;
    }
    assert(lines_of(a@.skip(from as int)) == Seq::<Seq<char>>::empty());
    assert(r.deep_view() + Seq::<Seq<char>>::empty() == r.deep_view());
    r
}

/// The entries of the list `s`.
pub fn list_entries(s: &str) -> (r: Vec<String>)
    ensures
        r.deep_view() == entries_of(s@),
{
    let all = lines(s);
    let mut r: Vec<String> = Vec::new();
    let ghost views = all.deep_view();
    let mut i: usize = 0;
    while i < all.len()
        invariant
            i <= all.len(),
            views == all.deep_view(),
            r.deep_view() == entries_in(views.take(i as int)),
        decreases all.len() - i,
    {
        let ghost before = r.deep_view();
        assert(views.take(i + 1).drop_last() == views.take(i as int));
        assert(views.take(i + 1).last() == all@[i as int]@);
        let entry = trim(until_char(all[i].as_str(), '#'));
        if !entry.is_empty() {
            r.push(entry.to_owned());
            assert(r.deep_view() == before.push(entry@));
        }
        i = i + 1;
    }
    assert(views.take(all.len() as int) == views);
    r
}

/// The maximal runs of characters in `s` that `mask` marks.
pub(crate) fn masked_runs(s: &Vec<char>, mask: &Vec<bool>, Ghost(keep): Ghost<spec_fn(char) -> bool>) -> (r:
    Vec<String>)
    requires
        s.len() == mask.len(),
        forall|i: int| 0 <= i < s.len() ==> mask@[i] == keep(#[trigger] s@[i]),
    ensures
        r.deep_view() == runs_of(s@, keep),
{
    let mut r: Vec<String> = Vec::new();
    let mut from: usize = 0;
    assert(s@.skip(0) == s@);
    assert(r.deep_view() + runs_of(s@, keep) == runs_of(s@, keep));
    while from < s.len()
        invariant
            from <= s.len(),
            s.len() == mask.len(),
            forall|i: int| 0 <= i < s.len() ==> mask@[i] == keep(#[trigger] s@[i]),
            r.deep_view() + runs_of(s@.skip(from as int), keep) == runs_of(s@, keep),
        decreases s.len() - from,
    {
        let ghost before = r.deep_view();
        let ghost rest = s@.skip(from as int);
        let mut to: usize = from;
        while to < s.len() && mask[to]
            invariant
                from <= to <= s.len(),
                s.len() == mask.len(),
                forall|i: int| 0 <= i < s.len() ==> mask@[i] == keep(#[trigger] s@[i]),
                run_len(s@.skip(from as int), keep) == to - from + run_len(s@.skip(to as int), keep),
            decreases s.len() - to,
        {
            assert(s@.skip(to as int).drop_first() == s@.skip(to + 1));
            to = to + 1;
        }
        assert(run_len(rest, keep) == to - from);
        if to == from {
            assert(rest.drop_first() == s@.skip(from + 1));
            from = from + 1;
        } else {
            let run = text_of(s, from, to);
            let ghost run_view = run@;
            r.push(run);
            assert(rest.take(to - from) == run_view);
            assert(rest.skip(to - from) == s@.skip(to as int));
            assert(r.deep_view() == before + seq![run_view]);
            assert(before + (seq![run_view] + runs_of(s@.skip(to as int), keep)) == (before + seq![
                run_view,
            ]) + runs_of(s@.skip(to as int), keep));
            from = to;
        }
    }
    assert(runs_of(s@.skip(from as int), keep) == Seq::<Seq<char>>::empty());
    assert(r.deep_view() + Seq::<Seq<char>>::empty() == r.deep_view());
    r
}

/// The words of `s`.
pub fn words(s: &str) -> (r: Vec<String>)
    ensures
        r.deep_view() == words_of(s@),
{
    let a = chars_of(s);
    let mut mask: Vec<bool> = Vec::new();
    let mut i: usize = 0;
    while i < a.len()
        invariant
            i <= a.len(),
            mask.len() == i,
            forall|j: int| 0 <= j < i ==> mask@[j] == !white_space(#[trigger] a@[j]),
        decreases a.len() - i,
    {
        mask.push(!is_white_space(a[i]));
        i = i + 1;
    }
    masked_runs(&a, &mask, Ghost(not_white_space()))
}

/// `parts` with `sep` between neighbours.
pub fn join(parts: &Vec<String>, sep: &str) -> (r: String)
    ensures
        r@ == joined(parts.deep_view(), sep@),
{
    let mut r = String::new();
    let ghost all = parts.deep_view();
    let mut i: usize = 0;
    while i < parts.len()
        invariant
            i <= parts.len(),
            all == parts.deep_view(),
            r@ == joined(all.take(i as int), sep@),
        decreases parts.len() - i,
    {
        assert(all.take(i + 1).drop_last() == all.take(i as int));
        assert(all.take(i + 1).last() == parts@[i as int]@);
        if i > 0 {
            r.append(sep);
        }
        r.append(parts[i].as_str());
        i = i + 1;
    }
    assert(all.take(parts.len() as int) == all);
    r
}

/// `s` without the occurrences of `pat`.
pub fn remove_all(s: &str, pat: &str) -> (r: String)
    requires
        pat@.len() > 0,
    ensures
        r@ == without_all(s@, pat@),
{
    let a = chars_of(s);
    let b = chars_of(pat);
    let mut r = String::new();
    let mut i: usize = 0;
    assert(a@.skip(0) == a@);
    assert(r@ + without_all(a@, b@) == without_all(a@, b@));
    while i < a.len()
        invariant
            i <= a.len(),
            b.len() > 0,
            r@ + without_all(a@.skip(i as int), b@) == without_all(a@, b@),
        decreases a.len() - i,
    {
        let ghost rest = a@.skip(i as int);
        if matches_at(&a, &b, i) {
            assert(rest.subrange(0, b@.len() as int) == a@.subrange(i as int, i + b@.len()));
            assert(rest.skip(b@.len() as int) == a@.skip(i + b@.len()));
            i = i + b.len();
        } else {
            assert(rest.len() >= b@.len() ==> rest.subrange(0, b@.len() as int) == a@.subrange(
                i as int,
                i + b@.len(),
            ));
            assert(rest.drop_first() == a@.skip(i + 1));
            assert(r@.push(rest[0]) + without_all(a@.skip(i + 1), b@) == r@ + (seq![rest[0]]
                + without_all(a@.skip(i + 1), b@)));
            r.push(a[i]);
            i = i + 1;
        }
    }
    assert(r@ + without_all(a@.skip(i as int), b@) == r@);
    r
}

fn char_lt(x: char, y: char) -> (r: bool)
    ensures
        r == ((x as int) < (y as int)),
{
    (x as u32) < (y as u32)
}

/// Whether `s` comes before `t` in the order of their code points.
pub fn text_lt(s: &str, t: &str) -> (r: bool)
    ensures
        r == lex_lt(s@, t@),
{
    let a = chars_of(s);
    let b = chars_of(t);
    let mut i: usize = 0;
    assert(a@.skip(0) == a@ && b@.skip(0) == b@);
    loop
        invariant
            i <= a.len(),
            i <= b.len(),
            lex_lt(a@, b@) == lex_lt(a@.skip(i as int), b@.skip(i as int)),
            s@ == a@,
            t@ == b@,
        decreases a.len() - i,
    {
        if i == b.len() {
            return false;
        }
        if i == a.len() {
            return true;
        }
        if a[i] != b[i] {
            return char_lt(a[i], b[i]);
        }
        assert(a@.skip(i as int).drop_first() == a@.skip(i + 1));
        assert(b@.skip(i as int).drop_first() == b@.skip(i + 1));
        i = i + 1;
    }
}

/// The order of texts is irreflexive.
pub proof fn lemma_lex_irreflexive(a: Seq<char>)
    ensures
        !lex_lt(a, a),
    decreases a.len(),
{
    if a.len() > 0 {
        lemma_lex_irreflexive(a.drop_first());
    }
}

/// The order of texts is transitive.
pub proof fn lemma_lex_transitive(a: Seq<char>, b: Seq<char>, c: Seq<char>)
    requires
        lex_lt(a, b),
        lex_lt(b, c),
    ensures
        lex_lt(a, c),
    decreases a.len(),
{
    if a.len() > 0 && a[0] == b[0] && b[0] == c[0] {
        lemma_lex_transitive(a.drop_first(), b.drop_first(), c.drop_first());
    }
}

/// Of two different texts one comes before the other.
pub proof fn lemma_lex_total(a: Seq<char>, b: Seq<char>)
    ensures
        lex_lt(a, b) || a == b || lex_lt(b, a),
    decreases a.len(),
{
    if a.len() > 0 && b.len() > 0 && a[0] == b[0] {
        lemma_lex_total(a.drop_first(), b.drop_first());
        if a.drop_first() == b.drop_first() {
            assert(a == seq![a[0]] + a.drop_first());
            assert(b == seq![b[0]] + b.drop_first());
        }
    } else if a.len() == 0 && b.len() == 0 {
        assert(a == b);
    } else if a.len() > 0 && b.len() > 0 {
        assert(a[0] as int != b[0] as int);
    }
}

/// A common beginning has no say in the order of two texts.
pub proof fn lemma_lex_common_prefix(p: Seq<char>, a: Seq<char>, b: Seq<char>)
    ensures
        lex_lt(p + a, p + b) == lex_lt(a, b),
    decreases p.len(),
{
    if p.len() == 0 {
        assert(p + a == a);
        assert(p + b == b);
    } else {
        lemma_lex_common_prefix(p.drop_first(), a, b);
        assert((p + a).drop_first() == p.drop_first() + a);
        assert((p + b).drop_first() == p.drop_first() + b);
    }
}

/// Of two texts no more than one comes before the other.
pub proof fn lemma_lex_asymmetric(a: Seq<char>, b: Seq<char>)
    ensures
        !(lex_lt(a, b) && lex_lt(b, a)),
{
    if lex_lt(a, b) && lex_lt(b, a) {
        lemma_lex_transitive(a, b, a);
        lemma_lex_irreflexive(a);
    }
}

proof fn lemma_joined_first(parts: Seq<Seq<char>>, sep: Seq<char>)
    requires
        parts.len() >= 2,
    ensures
        joined(parts, sep) == parts[0] + sep + joined(parts.drop_first(), sep),
    decreases parts.len(),
{
    let rest = parts.drop_first();
    let front = parts.drop_last();
    assert(front.drop_first() == rest.drop_last());
    assert(rest.last() == parts.last());
    assert(front[0] == parts[0]);
    if parts.len() > 2 {
        lemma_joined_first(front, sep);
        let middle = joined(rest.drop_last(), sep);
        assert(joined(rest, sep) == middle + sep + parts.last());
        assert(parts[0] + sep + middle + sep + parts.last() == parts[0] + sep + (middle + sep
            + parts.last()));
    } else {
        assert(joined(rest, sep) == parts[1]);
        assert(joined(front, sep) == parts[0]);
    }
}

proof fn lemma_index_of_char(a: Seq<char>, c: char, b: Seq<char>)
    requires
        !a.contains(c),
    ensures
        index_of_char(a, c) == a.len(),
        index_of_char(a + seq![c] + b, c) == a.len(),
    decreases a.len(),
{
    let s = a + seq![c] + b;
    if a.len() > 0 {
        assert(a.contains(a[0]));
        assert forall|x: char| a.drop_first().contains(x) implies a.contains(x) by {
            let k = choose|k: int| 0 <= k < a.drop_first().len() && a.drop_first()[k] == x;
            assert(a[k + 1] == x);
        }
        lemma_index_of_char(a.drop_first(), c, b);
        assert(s.drop_first() == a.drop_first() + seq![c] + b);
    }
}

/// `lines` can be told apart when they are written one on each line: none holds a line feed, none
/// but the last ends with a carriage return, and the last is not empty.
pub open spec fn separate_lines(lines: Seq<Seq<char>>) -> bool {
    &&& forall|i: int| 0 <= i < lines.len() ==> !(#[trigger] lines[i]).contains('\n')
    &&& forall|i: int|
        0 <= i < lines.len() - 1 && (#[trigger] lines[i]).len() > 0 ==> lines[i].last() != '\r'
    &&& lines.len() > 0 ==> lines.last().len() > 0
}

/// Lines that are written one on each line are read back as they were.
pub proof fn lemma_lines_of_joined(lines: Seq<Seq<char>>)
    requires
        separate_lines(lines),
    ensures
        lines_of(joined(lines, "\n"@)) == lines,
    decreases lines.len(),
{
    reveal_strlit("\n");
    assert("\n"@ == seq!['\n']);
    let s = joined(lines, "\n"@);
    if lines.len() == 1 {
        lemma_index_of_char(lines[0], '\n', seq![]);
        assert(lines_of(s) == lines);
    } else if lines.len() > 1 {
        let rest = lines.drop_first();
        assert forall|i: int| 0 <= i < rest.len() implies rest[i] == #[trigger] lines[i + 1] by {}
        assert(separate_lines(rest)) by {
            assert(rest.last() == lines.last());
            assert forall|i: int| 0 <= i < rest.len() implies !(#[trigger] rest[i]).contains('\n') by {
                assert(!lines[i + 1].contains('\n'));
            }
            assert forall|i: int|
                0 <= i < rest.len() - 1 && (#[trigger] rest[i]).len() > 0 implies rest[i].last() != '\r' by {
                assert(lines[i + 1].len() > 0);
            }
        }
        lemma_lines_of_joined(rest);
        lemma_joined_first(lines, "\n"@);
        let tail = joined(rest, "\n"@);
        assert(s == lines[0] + seq!['\n'] + tail);
        lemma_index_of_char(lines[0], '\n', tail);
        assert(s.take(lines[0].len() as int) == lines[0]);
        assert(s.skip(lines[0].len() + 1int) == tail);
        assert(without_carriage_return(lines[0]) == lines[0]);
        assert(lines_of(s) == seq![lines[0]] + rest);
        assert(seq![lines[0]] + rest == lines);
    }
}

proof fn lemma_run_len(a: Seq<char>, b: Seq<char>, keep: spec_fn(char) -> bool)
    requires
        forall|i: int| 0 <= i < a.len() ==> keep(#[trigger] a[i]),
        b.len() > 0 ==> !keep(b[0]),
    ensures
        run_len(a + b, keep) == a.len(),
    decreases a.len(),
{
    if a.len() > 0 {
        let rest = a.drop_first();
        assert forall|i: int| 0 <= i < rest.len() implies keep(#[trigger] rest[i]) by {
            assert(rest[i] == a[i + 1]);
        }
        lemma_run_len(rest, b, keep);
        assert((a + b).drop_first() == rest + b);
        assert((a + b)[0] == a[0]);
    } else {
        assert(a + b == b);
    }
}

/// `part` is a run of characters that `keep` accepts.
pub open spec fn is_run(part: Seq<char>, keep: spec_fn(char) -> bool) -> bool {
    part.len() > 0 && forall|i: int| 0 <= i < part.len() ==> keep(#[trigger] part[i])
}

proof fn lemma_run_prefix(s: Seq<char>, keep: spec_fn(char) -> bool)
    ensures
        run_len(s, keep) <= s.len(),
        forall|i: int| 0 <= i < run_len(s, keep) ==> keep(#[trigger] s[i]),
    decreases s.len(),
{
    if s.len() > 0 && keep(s[0]) {
        let rest = s.drop_first();
        lemma_run_prefix(rest, keep);
        assert forall|i: int| 0 <= i < run_len(s, keep) implies keep(#[trigger] s[i]) by {
            if i > 0 {
                assert(rest[i - 1] == s[i]);
            }
        }
    }
}

/// What a text is split into are runs.
pub proof fn lemma_runs_are_runs(s: Seq<char>, keep: spec_fn(char) -> bool)
    ensures
        forall|i: int| 0 <= i < runs_of(s, keep).len() ==> is_run(#[trigger] runs_of(s, keep)[i], keep),
    decreases s.len(),
{
    if s.len() > 0 {
        lemma_run_prefix(s, keep);
        let n = run_len(s, keep) as int;
        if n == 0 {
            lemma_runs_are_runs(s.drop_first(), keep);
            assert(runs_of(s, keep) == runs_of(s.drop_first(), keep));
        } else {
            lemma_runs_are_runs(s.skip(n), keep);
            assert forall|i: int| 0 <= i < runs_of(s, keep).len() implies is_run(
                #[trigger] runs_of(s, keep)[i],
                keep,
            ) by {
                if i == 0 {
                    assert(runs_of(s, keep)[0] == s.take(n));
                    assert forall|k: int| 0 <= k < n implies keep(#[trigger] s.take(n)[k]) by {
                        assert(s.take(n)[k] == s[k]);
                    }
                } else {
                    assert(runs_of(s, keep)[i] == runs_of(s.skip(n), keep)[i - 1]);
                }
            }
        }
    }
}

proof fn lemma_first_run(part: Seq<char>, after: Seq<char>, keep: spec_fn(char) -> bool)
    requires
        is_run(part, keep),
        after.len() > 0 ==> !keep(after[0]),
    ensures
        runs_of(part + after, keep) == seq![part] + runs_of(after, keep),
{
    let s = part + after;
    lemma_run_len(part, after, keep);
    assert(s.take(part.len() as int) == part);
    assert(s.skip(part.len() as int) == after);
}

proof fn lemma_no_run(c: char, after: Seq<char>, keep: spec_fn(char) -> bool)
    requires
        !keep(c),
    ensures
        runs_of(seq![c] + after, keep) == runs_of(after, keep),
{
    let s = seq![c] + after;
    assert(s.drop_first() == after);
    assert(s[0] == c);
}

/// Runs that are joined by one character that no run holds are read back as they were.
pub proof fn lemma_runs_of_joined(parts: Seq<Seq<char>>, c: char, keep: spec_fn(char) -> bool)
    requires
        forall|i: int| 0 <= i < parts.len() ==> is_run(#[trigger] parts[i], keep),
        !keep(c),
    ensures
        runs_of(joined(parts, seq![c]), keep) == parts,
    decreases parts.len(),
{
    if parts.len() == 1 {
        let none = Seq::<char>::empty();
        lemma_first_run(parts[0], none, keep);
        assert(parts[0] + none == parts[0]);
        assert(seq![parts[0]] + Seq::<Seq<char>>::empty() == parts);
    } else if parts.len() > 1 {
        let rest = parts.drop_first();
        assert forall|i: int| 0 <= i < rest.len() implies is_run(#[trigger] rest[i], keep) by {
            assert(rest[i] == parts[i + 1]);
        }
        let tail = joined(rest, seq![c]);
        lemma_runs_of_joined(rest, c, keep);
        lemma_joined_first(parts, seq![c]);
        lemma_no_run(c, tail, keep);
        lemma_first_run(parts[0], seq![c] + tail, keep);
        assert(parts[0] + seq![c] + tail == parts[0] + (seq![c] + tail));
        assert(seq![parts[0]] + rest == parts);
    }
}

/// Words that are joined by a space are read back as they were.
pub proof fn lemma_words_of_joined(s: Seq<char>)
    ensures
        words_of(joined(words_of(s), " "@)) == words_of(s),
{
    reveal_strlit(" ");
    assert(" "@ == seq![' ']);
    lemma_runs_are_runs(s, not_white_space());
    lemma_runs_of_joined(words_of(s), ' ', not_white_space());
}

proof fn lemma_trim_start(s: Seq<char>)
    ensures
        trim_start(s).len() > 0 ==> !white_space(trim_start(s)[0]),
        forall|c: char| trim_start(s).contains(c) ==> s.contains(c),
    decreases s.len(),
{
    if s.len() > 0 && white_space(s[0]) {
        let rest = s.drop_first();
        lemma_trim_start(rest);
        assert forall|c: char| trim_start(s).contains(c) implies s.contains(c) by {
            assert(rest.contains(c));
            let k = choose|k: int| 0 <= k < rest.len() && rest[k] == c;
            assert(s[k + 1] == c);
        }
    }
}

proof fn lemma_trim_end(s: Seq<char>)
    ensures
        trim_end(s).len() > 0 ==> !white_space(trim_end(s).last()) && trim_end(s)[0] == s[0],
        forall|c: char| trim_end(s).contains(c) ==> s.contains(c),
    decreases s.len(),
{
    if s.len() > 0 && white_space(s.last()) {
        let rest = s.drop_last();
        lemma_trim_end(rest);
        assert forall|c: char| trim_end(s).contains(c) implies s.contains(c) by {
            assert(rest.contains(c));
            let k = choose|k: int| 0 <= k < rest.len() && rest[k] == c;
            assert(s[k] == c);
        }
    }
}

/// A trimmed text has no white space at either end, so that trimming it again changes nothing.
pub proof fn lemma_trimmed(s: Seq<char>)
    ensures
        trimmed(s).len() > 0 ==> !white_space(trimmed(s)[0]) && !white_space(trimmed(s).last()),
        trimmed(trimmed(s)) == trimmed(s),
        forall|c: char| trimmed(s).contains(c) ==> s.contains(c),
{
    lemma_trim_start(s);
    lemma_trim_end(trim_start(s));
}

/// What stands before the first `c` of a text is a beginning of it that holds no `c`.
pub proof fn lemma_before_char(s: Seq<char>, c: char)
    ensures
        0 <= index_of_char(s, c) <= s.len(),
        !before_char(s, c).contains(c),
    decreases s.len(),
{
    if s.len() > 0 && s[0] != c {
        let rest = s.drop_first();
        lemma_before_char(rest, c);
        if before_char(s, c).contains(c) {
            let k = choose|k: int| 0 <= k < before_char(s, c).len() && before_char(s, c)[k] == c;
            assert(k > 0);
            assert(before_char(rest, c)[k - 1] == c);
        }
    }
}

proof fn lemma_lines_hold_no_feed(s: Seq<char>)
    ensures
        forall|i: int| 0 <= i < lines_of(s).len() ==> !(#[trigger] lines_of(s)[i]).contains('\n'),
    decreases s.len(),
{
    if s.len() > 0 {
        let n = index_of_char(s, '\n');
        lemma_before_char(s, '\n');
        if n < s.len() {
            let head = s.take(n);
            let line = without_carriage_return(head);
            let rest = s.skip(n + 1);
            lemma_lines_hold_no_feed(rest);
            assert(!line.contains('\n')) by {
                if line.contains('\n') {
                    let k = choose|k: int| 0 <= k < line.len() && line[k] == '\n';
                    assert(head[k] == '\n');
                }
            }
            assert forall|i: int| 0 <= i < lines_of(s).len() implies !(
            #[trigger] lines_of(s)[i]).contains('\n') by {
                if i > 0 {
                    assert(lines_of(s)[i] == lines_of(rest)[i - 1]);
                }
            }
        } else {
            assert(before_char(s, '\n') == s);
        }
    }
}

proof fn lemma_entries_in(lines: Seq<Seq<char>>)
    requires
        forall|i: int| 0 <= i < lines.len() ==> !(#[trigger] lines[i]).contains('\n'),
    ensures
        forall|i: int|
            0 <= i < entries_in(lines).len() ==> {
                let e = #[trigger] entries_in(lines)[i];
                e.len() > 0 && !e.contains('#') && !e.contains('\n') && trimmed(e) == e
            },
    decreases lines.len(),
{
    if lines.len() > 0 {
        let rest = entries_in(lines.drop_last());
        let front = lines.drop_last();
        assert forall|i: int| 0 <= i < front.len() implies !(#[trigger] front[i]).contains('\n') by {
            assert(front[i] == lines[i]);
        }
        assert(!lines[lines.len() - 1].contains('\n'));
        let line = before_char(lines.last(), '#');
        lemma_entries_in(lines.drop_last());
        lemma_before_char(lines.last(), '#');
        lemma_trimmed(line);
        assert(!line.contains('\n')) by {
            if line.contains('\n') {
                let k = choose|k: int| 0 <= k < line.len() && line[k] == '\n';
                assert(lines.last()[k] == '\n');
            }
        }
        assert forall|i: int| 0 <= i < entries_in(lines).len() implies {
            let e = #[trigger] entries_in(lines)[i];
            e.len() > 0 && !e.contains('#') && !e.contains('\n') && trimmed(e) == e
        } by {
            if i < rest.len() {
                assert(entries_in(lines)[i] == rest[i]);
            }
        }
    }
}

/// No entry of a list is blank, holds a comment or goes over a line, and none has white space at
/// either end.
pub proof fn lemma_entries_are_clean(s: Seq<char>)
    ensures
        forall|i: int|
            0 <= i < entries_of(s).len() ==> {
                let e = #[trigger] entries_of(s)[i];
                e.len() > 0 && !e.contains('#') && !e.contains('\n') && trimmed(e) == e
            },
{
    lemma_lines_hold_no_feed(s);
    lemma_entries_in(lines_of(s));
}

/// The first character counts by itself.
pub proof fn lemma_count_first(s: Seq<char>, c: char)
    requires
        s.len() > 0,
    ensures
        count_char(s, c) == count_char(s.drop_first(), c) + if s[0] == c {
            1nat
        } else {
            0nat
        },
    decreases s.len(),
{
    let rest = s.drop_first();
    if s.len() > 1 {
        lemma_count_first(s.drop_last(), c);
        assert(s.drop_last().drop_first() == rest.drop_last());
        assert(rest.last() == s.last());
    } else {
        assert(s.drop_last() == rest);
    }
}

/// `s` holds nothing but white space.
pub open spec fn all_white(s: Seq<char>) -> bool {
    forall|i: int| 0 <= i < s.len() ==> white_space(#[trigger] s[i])
}

proof fn lemma_trim_start_push(s: Seq<char>, w: char)
    requires
        white_space(w),
    ensures
        trim_start(s.push(w)) == if trim_start(s).len() == 0 {
            Seq::<char>::empty()
        } else {
            trim_start(s).push(w)
        },
    decreases s.len(),
{
    let longer = s.push(w);
    if s.len() == 0 {
        assert(longer.drop_first() == Seq::<char>::empty());
        assert(trim_start(longer) == trim_start(longer.drop_first()));
    } else if white_space(s[0]) {
        lemma_trim_start_push(s.drop_first(), w);
        assert(longer.drop_first() == s.drop_first().push(w));
    }
}

proof fn lemma_trimmed_push(s: Seq<char>, w: char)
    requires
        white_space(w),
    ensures
        trimmed(s.push(w)) == trimmed(s),
{
    lemma_trim_start_push(s, w);
    let start = trim_start(s);
    if start.len() > 0 {
        assert(start.push(w).drop_last() == start);
    } else {
        assert(start == Seq::<char>::empty());
    }
}

/// White space at either end of a text plays no part once the text is trimmed.
pub proof fn lemma_trimmed_padding(before: Seq<char>, s: Seq<char>, after: Seq<char>)
    requires
        all_white(before),
        all_white(after),
    ensures
        trimmed(before + s + after) == trimmed(s),
    decreases before.len() + after.len(),
{
    let whole = before + s + after;
    if after.len() > 0 {
        let fewer = after.drop_last();
        assert forall|i: int| 0 <= i < fewer.len() implies white_space(#[trigger] fewer[i]) by {
            assert(fewer[i] == after[i]);
        }
        assert(white_space(after[after.len() - 1]));
        lemma_trimmed_padding(before, s, fewer);
        lemma_trimmed_push(before + s + fewer, after.last());
        assert(whole == (before + s + fewer).push(after.last()));
    } else if before.len() > 0 {
        let fewer = before.drop_first();
        assert forall|i: int| 0 <= i < fewer.len() implies white_space(#[trigger] fewer[i]) by {
            assert(fewer[i] == before[i + 1]);
        }
        lemma_trimmed_padding(fewer, s, after);
        assert(white_space(before[0]));
        assert(whole[0] == before[0]);
        assert(whole.drop_first() == fewer + s + after);
    } else {
        assert(whole == s);
    }
}

/// What stands before the first `c` of a text, where `c` is put behind a text without one.
pub proof fn lemma_before_char_is(a: Seq<char>, c: char, b: Seq<char>)
    requires
        !a.contains(c),
    ensures
        before_char(a, c) == a,
        before_char(a + seq![c] + b, c) == a,
{
    lemma_index_of_char(a, c, b);
    assert(a.take(a.len() as int) == a);
    assert((a + seq![c] + b).take(a.len() as int) == a);
}

proof fn lemma_entries_in_concat(a: Seq<Seq<char>>, b: Seq<Seq<char>>)
    ensures
        entries_in(a + b) == entries_in(a) + entries_in(b),
    decreases b.len(),
{
    if b.len() == 0 {
        assert(a + b == a);
        assert(entries_in(a) + entries_in(b) == entries_in(a));
    } else {
        lemma_entries_in_concat(a, b.drop_last());
        assert((a + b).drop_last() == a + b.drop_last());
        assert((a + b).last() == b.last());
        assert(entries_in(a + b) == entries_in(a) + entries_in(b));
    }
}

/// A carriage return at the end of a line is no part of its entry.
proof fn lemma_entry_of_line(line: Seq<char>)
    ensures
        trimmed(before_char(without_carriage_return(line), '#')) == trimmed(before_char(line, '#')),
{
    if line.len() > 0 && line.last() == '\r' {
        let start = line.drop_last();
        assert(line == start.push('\r'));
        lemma_before_char(start, '#');
        let n = index_of_char(start, '#');
        if n < start.len() {
            lemma_char_at_index(start, '#');
            let head = before_char(start, '#');
            let tail = start.skip(n + 1).push('\r');
            assert(start[n] == '#');
            assert(line == head + seq!['#'] + tail);
            lemma_before_char_is(head, '#', tail);
        } else {
            assert(before_char(start, '#') == start);
            assert(!line.contains('#')) by {
                if line.contains('#') {
                    let k = choose|k: int| 0 <= k < line.len() && line[k] == '#';
                    assert(start[k] == '#');
                }
            }
            lemma_before_char_is(line, '#', seq![]);
            lemma_trimmed_push(start, '\r');
        }
    }
}

proof fn lemma_char_at_index(s: Seq<char>, c: char)
    requires
        index_of_char(s, c) < s.len(),
    ensures
        0 <= index_of_char(s, c),
        s[index_of_char(s, c)] == c,
    decreases s.len(),
{
    if s[0] != c {
        lemma_char_at_index(s.drop_first(), c);
    }
}

/// A list of two parts, one below the other, has the entries of the first and then those of the
/// second.
pub proof fn lemma_entries_of_two_parts(a: Seq<char>, b: Seq<char>)
    ensures
        entries_of(a + seq!['\n'] + b) == entries_of(a) + entries_of(b),
    decreases a.len(),
{
    let whole = a + seq!['\n'] + b;
    let n = index_of_char(a, '\n');
    lemma_before_char(a, '\n');
    if n < a.len() {
        lemma_char_at_index(a, '\n');
        let head = a.take(n);
        let rest = a.skip(n + 1);
        let tail = rest + seq!['\n'] + b;
        assert(a == head + seq!['\n'] + rest);
        assert(whole == head + seq!['\n'] + tail);
        assert(before_char(a, '\n') == head);
        lemma_index_of_char(head, '\n', tail);
        assert(whole.take(n) == head);
        assert(whole.skip(n + 1) == tail);
        let line = seq![without_carriage_return(head)];
        assert(lines_of(whole) == line + lines_of(tail));
        assert(lines_of(a) == line + lines_of(rest));
        lemma_entries_of_two_parts(rest, b);
        lemma_entries_in_concat(line, lines_of(tail));
        lemma_entries_in_concat(line, lines_of(rest));
        assert(entries_in(line) + (entries_of(rest) + entries_of(b)) == entries_in(line)
            + entries_of(rest) + entries_of(b));
    } else {
        assert(before_char(a, '\n') == a);
        lemma_index_of_char(a, '\n', b);
        assert(whole.take(n) == a);
        assert(whole.skip(n + 1) == b);
        let line = seq![without_carriage_return(a)];
        assert(lines_of(whole) == line + lines_of(b));
        lemma_entries_in_concat(line, lines_of(b));
        lemma_entry_of_line(a);
        assert(line.drop_last() == Seq::<Seq<char>>::empty());
        if a.len() > 0 {
            assert(seq![a].drop_last() == Seq::<Seq<char>>::empty());
            assert(lines_of(a) == seq![a]);
        } else {
            assert(before_char(a, '#') == Seq::<char>::empty());
        }
        assert(entries_in(line) == entries_of(a));
    }
}

/// Runs that are joined by one character make no longer a text than the one that they come from.
pub proof fn lemma_joined_runs_are_shorter(s: Seq<char>, c: char, keep: spec_fn(char) -> bool)
    ensures
        joined(runs_of(s, keep), seq![c]).len() <= s.len(),
    decreases s.len(),
{
    if s.len() > 0 {
        lemma_run_prefix(s, keep);
        let n = run_len(s, keep) as int;
        if n == 0 {
            lemma_joined_runs_are_shorter(s.drop_first(), c, keep);
        } else {
            let after = s.skip(n);
            let rest = runs_of(after, keep);
            let all = runs_of(s, keep);
            assert(all == seq![s.take(n)] + rest);
            if rest.len() > 0 {
                assert(after.len() > 0);
                lemma_run_ends(s, keep);
                assert(after[0] == s[n]);
                lemma_joined_runs_are_shorter(after.drop_first(), c, keep);
                assert(rest == runs_of(after.drop_first(), keep));
                lemma_joined_first(all, seq![c]);
                assert(all.drop_first() == rest);
            } else {
                assert(joined(all, seq![c]) == s.take(n));
            }
        }
    }
}

proof fn lemma_run_ends(s: Seq<char>, keep: spec_fn(char) -> bool)
    requires
        run_len(s, keep) < s.len(),
    ensures
        !keep(s[run_len(s, keep) as int]),
    decreases s.len(),
{
    if keep(s[0]) {
        lemma_run_ends(s.drop_first(), keep);
    }
}

/// A `c` at the end of a text is no part of what stands before the first `c`.
pub proof fn lemma_before_char_push(s: Seq<char>, c: char)
    ensures
        before_char(s.push(c), c) == before_char(s, c),
{
    lemma_before_char(s, c);
    let n = index_of_char(s, c);
    let head = before_char(s, c);
    if n < s.len() {
        lemma_char_at_index(s, c);
        let tail = s.skip(n + 1).push(c);
        assert(s.push(c) == head + seq![c] + tail);
        lemma_before_char_is(head, c, tail);
    } else {
        assert(head == s);
        assert(s.push(c) == head + seq![c] + Seq::<char>::empty());
        lemma_before_char_is(head, c, Seq::<char>::empty());
    }
}

proof fn lemma_occurs_between(a: Seq<char>, pat: Seq<char>, b: Seq<char>)
    ensures
        occurs_at(a + pat + b, pat, a.len() as int),
{
    assert((a + pat + b).subrange(a.len() as int, (a.len() + pat.len()) as int) == pat);
}

proof fn lemma_split_at(s: Seq<char>, pat: Seq<char>, i: int)
    requires
        occurs_at(s, pat, i),
    ensures
        s == s.take(i) + pat + s.skip(i + pat.len()),
{
    assert forall|k: int| 0 <= k < s.len() implies s[k] == (s.take(i) + pat + s.skip(
        i + pat.len(),
    ))[k] by {
        if i <= k < i + pat.len() {
            assert(s.subrange(i, i + pat.len())[k - i] == pat[k - i]);
        }
    }
}

/// A text holds another wherever that stands: at its beginning, in its middle or at its end.
pub proof fn lemma_contains_text(s: Seq<char>, pat: Seq<char>)
    ensures
        contains_text(s, pat) <==> exists|a: Seq<char>, b: Seq<char>| s == #[trigger] (a + pat + b),
{
    if contains_text(s, pat) {
        let i = choose|i: int| occurs_at(s, pat, i);
        lemma_split_at(s, pat, i);
    }
    if exists|a: Seq<char>, b: Seq<char>| s == #[trigger] (a + pat + b) {
        let (a, b) = choose|a: Seq<char>, b: Seq<char>| s == #[trigger] (a + pat + b);
        lemma_occurs_between(a, pat, b);
    }
}

/// What stands in a text has a first place there.
pub proof fn lemma_first_exists(s: Seq<char>, pat: Seq<char>, i: int)
    requires
        occurs_at(s, pat, i),
    ensures
        exists|k: int| first_at(s, pat, k),
    decreases i,
{
    if exists|j: int| 0 <= j < i && occurs_at(s, pat, j) {
        let j = choose|j: int| 0 <= j < i && occurs_at(s, pat, j);
        lemma_first_exists(s, pat, j);
    } else {
        assert(first_at(s, pat, i));
    }
}

/// The position of a text in another is the length of the shortest text that may stand before it;
/// there is one wherever the text stands at all.
pub proof fn lemma_position(s: Seq<char>, pat: Seq<char>)
    ensures
        position(s, pat) matches Some(i) ==> 0 <= i <= s.len() && s == s.take(i) + pat + s.skip(
            i + pat.len(),
        ),
        forall|a: Seq<char>, b: Seq<char>|
            s == #[trigger] (a + pat + b) ==> (position(s, pat) matches Some(i) && i <= a.len()),
{
    if contains_text(s, pat) {
        let w = choose|i: int| occurs_at(s, pat, i);
        lemma_first_exists(s, pat, w);
        let i = choose|i: int| first_at(s, pat, i);
        lemma_split_at(s, pat, i);
    }
    assert forall|a: Seq<char>, b: Seq<char>| s == #[trigger] (a + pat + b) implies (position(
        s,
        pat,
    ) matches Some(i) && i <= a.len()) by {
        lemma_occurs_between(a, pat, b);
    }
}

/// Every `c` of a text counts, and nothing else does.
pub proof fn lemma_count_char(s: Seq<char>, c: char)
    ensures
        count_char(s, c) == s.filter(|x: char| x == c).len(),
    decreases s.len(),
{
    reveal(Seq::filter);
    if s.len() > 0 {
        lemma_count_char(s.drop_last(), c);
    }
}

/// The characters that count as white space.
pub proof fn lemma_white_space(c: char)
    ensures
        white_space(c) <==> seq![
            '\t',
            '\n',
            '\u{b}',
            '\u{c}',
            '\r',
            ' ',
            '\u{85}',
            '\u{a0}',
            '\u{1680}',
            '\u{2000}',
            '\u{2001}',
            '\u{2002}',
            '\u{2003}',
            '\u{2004}',
            '\u{2005}',
            '\u{2006}',
            '\u{2007}',
            '\u{2008}',
            '\u{2009}',
            '\u{200a}',
            '\u{2028}',
            '\u{2029}',
            '\u{202f}',
            '\u{205f}',
            '\u{3000}',
        ].contains(c),
{
    let all = seq![
        '\t',
        '\n',
        '\u{b}',
        '\u{c}',
        '\r',
        ' ',
        '\u{85}',
        '\u{a0}',
        '\u{1680}',
        '\u{2000}',
        '\u{2001}',
        '\u{2002}',
        '\u{2003}',
        '\u{2004}',
        '\u{2005}',
        '\u{2006}',
        '\u{2007}',
        '\u{2008}',
        '\u{2009}',
        '\u{200a}',
        '\u{2028}',
        '\u{2029}',
        '\u{202f}',
        '\u{205f}',
        '\u{3000}',
    ];
    if white_space(c) {
        let u = c as int;
        let k: int = if u <= 0xd {
            u - 9
        } else if u == 0x20 {
            5
        } else if u == 0x85 {
            6
        } else if u == 0xa0 {
            7
        } else if u == 0x1680 {
            8
        } else if u <= 0x200a {
            u - 0x2000 + 9
        } else if u == 0x2028 {
            20
        } else if u == 0x2029 {
            21
        } else if u == 0x202f {
            22
        } else if u == 0x205f {
            23
        } else {
            24
        };
        assert(all[k] == c);
    }
}

/// Trimming takes off the white space at both ends of a text and nothing else.
pub proof fn lemma_trimmed_is(before: Seq<char>, s: Seq<char>, after: Seq<char>)
    requires
        forall|i: int| 0 <= i < before.len() ==> white_space(#[trigger] before[i]),
        forall|i: int| 0 <= i < after.len() ==> white_space(#[trigger] after[i]),
        s.len() > 0 ==> !white_space(s[0]) && !white_space(s.last()),
    ensures
        trimmed(before + s + after) == s,
{
    lemma_trimmed_padding(before, s, after);
}

/// A text has the line before its first line feed, without a carriage return just before that, and
/// then the lines of what follows. What stands behind the last line feed is a line unless it is
/// empty.
pub proof fn lemma_lines_of(a: Seq<char>, b: Seq<char>)
    requires
        !a.contains('\n'),
    ensures
        lines_of(a + seq!['\r', '\n'] + b) == seq![a] + lines_of(b),
        a.len() == 0 || a.last() != '\r' ==> lines_of(a + seq!['\n'] + b) == seq![a] + lines_of(b),
        lines_of(a) == if a.len() == 0 {
            Seq::<Seq<char>>::empty()
        } else {
            seq![a]
        },
{
    let with = a.push('\r');
    assert(!with.contains('\n')) by {
        if with.contains('\n') {
            let k = choose|k: int| 0 <= k < with.len() && with[k] == '\n';
            assert(a[k] == '\n');
        }
    }
    assert(a + seq!['\r', '\n'] + b == with + seq!['\n'] + b);
    lemma_index_of_char(with, '\n', b);
    lemma_index_of_char(a, '\n', b);
    let one = with + seq!['\n'] + b;
    let two = a + seq!['\n'] + b;
    assert(one.take(with.len() as int) == with);
    assert(one.skip(with.len() as int + 1) == b);
    assert(with.drop_last() == a);
    assert(two.take(a.len() as int) == a);
    assert(two.skip(a.len() as int + 1) == b);
}

/// A character that no run holds divides a text: its runs are those of what stands before the
/// character and then those of what stands behind. A text without such a character is one run.
pub proof fn lemma_runs_of(a: Seq<char>, c: char, b: Seq<char>, keep: spec_fn(char) -> bool)
    requires
        !keep(c),
    ensures
        runs_of(a + seq![c] + b, keep) == runs_of(a, keep) + runs_of(b, keep),
        a.len() > 0 && (forall|i: int| 0 <= i < a.len() ==> keep(#[trigger] a[i])) ==> runs_of(
            a,
            keep,
        ) == seq![a],
        runs_of(Seq::<char>::empty(), keep) == Seq::<Seq<char>>::empty(),
    decreases a.len(),
{
    let whole = a + seq![c] + b;
    let none = Seq::<char>::empty();
    let no_runs = Seq::<Seq<char>>::empty();
    if a.len() == 0 {
        assert(whole == seq![c] + b);
        lemma_no_run(c, b, keep);
        assert(runs_of(a, keep) + runs_of(b, keep) == runs_of(b, keep));
    } else {
        lemma_run_prefix(a, keep);
        let n = run_len(a, keep) as int;
        if n == 0 {
            let rest = a.drop_first();
            lemma_runs_of(rest, c, b, keep);
            assert(whole == seq![a[0]] + (rest + seq![c] + b));
            lemma_no_run(a[0], rest + seq![c] + b, keep);
        } else {
            let part = a.take(n);
            let rest = a.skip(n);
            assert(is_run(part, keep)) by {
                assert forall|i: int| 0 <= i < part.len() implies keep(#[trigger] part[i]) by {
                    assert(part[i] == a[i]);
                }
            }
            if n < a.len() {
                lemma_run_ends(a, keep);
                assert(rest[0] == a[n]);
            }
            let after = rest + seq![c] + b;
            assert(whole == part + after);
            assert(a == part + rest);
            lemma_first_run(part, after, keep);
            lemma_first_run(part, rest, keep);
            lemma_runs_of(rest, c, b, keep);
            assert(seq![part] + (runs_of(rest, keep) + runs_of(b, keep)) == seq![part] + runs_of(
                rest,
                keep,
            ) + runs_of(b, keep));
        }
        if forall|i: int| 0 <= i < a.len() ==> keep(#[trigger] a[i]) {
            lemma_first_run(a, none, keep);
            assert(a + none == a);
            assert(seq![a] + no_runs == seq![a]);
        }
    }
}

/// An entry of a list is found on its line whatever white space stands around it and whatever
/// comment behind it, and a line of white space and a comment has none.
pub proof fn lemma_entries_of_line(
    before: Seq<char>,
    entry: Seq<char>,
    after: Seq<char>,
    comment: Seq<char>,
)
    requires
        forall|i: int|
            0 <= i < before.len() ==> white_space(#[trigger] before[i]) && before[i] != '\n',
        forall|i: int|
            0 <= i < after.len() ==> white_space(#[trigger] after[i]) && after[i] != '\n',
        forall|i: int| 0 <= i < entry.len() ==> (#[trigger] entry[i]) != '#' && entry[i] != '\n',
        entry.len() > 0 ==> !white_space(entry[0]) && !white_space(entry.last()),
        !comment.contains('\n'),
    ensures
        entries_of(before + entry + after) == if entry.len() == 0 {
            Seq::<Seq<char>>::empty()
        } else {
            seq![entry]
        },
        entries_of(before + entry + after + seq!['#'] + comment) == entries_of(
            before + entry + after,
        ),
{
    let plain = before + entry + after;
    let noted = plain + seq!['#'] + comment;
    assert(!plain.contains('#') && !plain.contains('\n')) by {
        assert forall|k: int| 0 <= k < plain.len() implies plain[k] != '#' && plain[k] != '\n' by {
            if k < before.len() {
                assert(plain[k] == before[k]);
            } else if k < before.len() + entry.len() {
                assert(plain[k] == entry[k - before.len()]);
            } else {
                assert(plain[k] == after[k - before.len() - entry.len()]);
            }
        }
    }
    assert(!noted.contains('\n')) by {
        assert forall|k: int| 0 <= k < noted.len() implies noted[k] != '\n' by {
            if k < plain.len() {
                assert(noted[k] == plain[k]);
                assert(plain.contains(plain[k]));
            } else if k > plain.len() {
                assert(noted[k] == comment[k - plain.len() - 1]);
                assert(comment.contains(comment[k - plain.len() - 1]));
            }
        }
    }
    lemma_before_char_is(plain, '#', comment);
    lemma_trimmed_is(before, entry, after);
    lemma_lines_of(plain, seq![]);
    lemma_lines_of(noted, seq![]);
    lemma_entry_of_one(plain);
    lemma_entry_of_one(noted);
    if plain.len() == 0 {
        assert(trimmed(plain) == entry);
    }
}

proof fn lemma_entry_of_one(line: Seq<char>)
    ensures
        entries_in(seq![line]) == if trimmed(before_char(line, '#')).len() == 0 {
            Seq::<Seq<char>>::empty()
        } else {
            seq![trimmed(before_char(line, '#'))]
        },
        entries_in(Seq::<Seq<char>>::empty()) == Seq::<Seq<char>>::empty(),
{
    let none = Seq::<Seq<char>>::empty();
    let entry = trimmed(before_char(line, '#'));
    assert(seq![line].drop_last() == none);
    assert(entries_in(none) == none);
    assert(none.push(entry) == seq![entry]);
}

/// Two rows of parts are joined as each of them is, with the separator between.
pub proof fn lemma_joined(a: Seq<Seq<char>>, b: Seq<Seq<char>>, sep: Seq<char>, part: Seq<char>)
    ensures
        joined(Seq::<Seq<char>>::empty(), sep) == Seq::<char>::empty(),
        joined(seq![part], sep) == part,
        a.len() > 0 && b.len() > 0 ==> joined(a + b, sep) == joined(a, sep) + sep + joined(b, sep),
    decreases b.len(),
{
    if a.len() > 0 && b.len() > 0 {
        let front = b.drop_last();
        assert((a + b).drop_last() == a + front);
        if front.len() > 0 {
            lemma_joined(a, front, sep, part);
            assert(joined(a + b, sep) == joined(a + front, sep) + sep + b.last());
            assert(joined(b, sep) == joined(front, sep) + sep + b.last());
            assert(joined(a, sep) + sep + joined(front, sep) + sep + b.last() == joined(a, sep) + sep
                + (joined(front, sep) + sep + b.last()));
        } else {
            assert(a + front == a);
            assert(joined(b, sep) == b[0]);
            assert((a + b).last() == b[0]);
        }
    }
}

/// Removing a text takes out its first occurrence, leaves what stands before it, and goes on behind
/// it.
pub proof fn lemma_without_all(a: Seq<char>, pat: Seq<char>, b: Seq<char>)
    requires
        pat.len() > 0,
        forall|x: Seq<char>, y: Seq<char>|
            a + pat + b == #[trigger] (x + pat + y) ==> a.len() <= x.len(),
    ensures
        without_all(a + pat + b, pat) == a + without_all(b, pat),
    decreases a.len(),
{
    let whole = a + pat + b;
    lemma_occurs_between(a, pat, b);
    if a.len() == 0 {
        assert(whole.skip(pat.len() as int) == b);
        assert(a + without_all(b, pat) == without_all(b, pat));
    } else {
        let rest = a.drop_first();
        assert(whole.drop_first() == rest + pat + b);
        if occurs_at(whole, pat, 0) {
            lemma_split_at(whole, pat, 0);
        }
        assert forall|x: Seq<char>, y: Seq<char>|
            rest + pat + b == #[trigger] (x + pat + y) implies rest.len() <= x.len() by {
            let longer = seq![a[0]] + x;
            assert(longer + pat + y == seq![a[0]] + (x + pat + y));
            assert(whole == longer + pat + y);
        }
        lemma_without_all(rest, pat, b);
        assert(seq![a[0]] + (rest + without_all(b, pat)) == a + without_all(b, pat));
    }
}

/// Removing what does not stand in a text changes nothing.
pub proof fn lemma_without_none(s: Seq<char>, pat: Seq<char>)
    requires
        forall|x: Seq<char>, y: Seq<char>| s != #[trigger] (x + pat + y),
    ensures
        without_all(s, pat) == s,
    decreases s.len(),
{
    if pat.len() > 0 && s.len() > 0 {
        let rest = s.drop_first();
        if occurs_at(s, pat, 0) {
            lemma_split_at(s, pat, 0);
        }
        assert forall|x: Seq<char>, y: Seq<char>| rest != #[trigger] (x + pat + y) by {
            let longer = seq![s[0]] + x;
            if rest == x + pat + y {
                assert(s == seq![s[0]] + (x + pat + y));
                assert(s == longer + pat + y);
            }
        }
        lemma_without_none(rest, pat);
        assert(seq![s[0]] + rest == s);
    }
}

/// A text comes before another where it is a beginning of it, or where the first character in which
/// they differ is smaller in it.
pub proof fn lemma_lex_lt(a: Seq<char>, b: Seq<char>)
    ensures
        lex_lt(a, b) <==> exists|k: int|
            0 <= k <= a.len() && k < b.len() && #[trigger] a.take(k) == b.take(k) && (k == a.len()
                || (a[k] as int) < (b[k] as int)),
    decreases a.len(),
{
    if a.len() > 0 && b.len() > 0 && a[0] == b[0] {
        let c = a.drop_first();
        let d = b.drop_first();
        lemma_lex_lt(c, d);
        if lex_lt(a, b) {
            let k = choose|k: int|
                0 <= k <= c.len() && k < d.len() && #[trigger] c.take(k) == d.take(k) && (k
                    == c.len() || (c[k] as int) < (d[k] as int));
            assert(a.take(k + 1) == seq![a[0]] + c.take(k));
            assert(b.take(k + 1) == seq![b[0]] + d.take(k));
            assert(a.take(k + 1) == b.take(k + 1));
        }
        if exists|k: int|
            0 <= k <= a.len() && k < b.len() && #[trigger] a.take(k) == b.take(k) && (k == a.len()
                || (a[k] as int) < (b[k] as int)) {
            let k = choose|k: int|
                0 <= k <= a.len() && k < b.len() && #[trigger] a.take(k) == b.take(k) && (k
                    == a.len() || (a[k] as int) < (b[k] as int));
            assert(k > 0);
            assert(c.take(k - 1) == a.take(k).drop_first());
            assert(d.take(k - 1) == b.take(k).drop_first());
            assert(c.take(k - 1) == d.take(k - 1));
        }
    } else if b.len() > 0 {
        assert(a.take(0) == b.take(0));
        assert forall|k: int|
            0 < k <= a.len() && k < b.len() && #[trigger] a.take(k) == b.take(k) implies false by {
            assert(a.take(k)[0] == b.take(k)[0]);
        }
    }
}

/// White space divides a text into words: its words are those before the white space and then those
/// behind it. A text without white space is one word, unless it is empty.
pub proof fn lemma_words_of(a: Seq<char>, c: char, b: Seq<char>)
    requires
        white_space(c),
    ensures
        words_of(a + seq![c] + b) == words_of(a) + words_of(b),
        a.len() > 0 && (forall|i: int| 0 <= i < a.len() ==> !white_space(#[trigger] a[i]))
            ==> words_of(a) == seq![a],
        words_of(Seq::<char>::empty()) == Seq::<Seq<char>>::empty(),
{
    let keep = not_white_space();
    lemma_runs_of(a, c, b, keep);
    if forall|i: int| 0 <= i < a.len() ==> !white_space(#[trigger] a[i]) {
        assert forall|i: int| 0 <= i < a.len() implies keep(#[trigger] a[i]) by {}
    }
}

} // verus!
