//! Dates of publication: how they are read from a page, and the one form they are kept in.

use crate::html;
use crate::numbers;
use crate::text;
use chrono::Datelike;
use chrono::{DateTime, NaiveDate, NaiveDateTime};
use scraper::Html;
use vstd::prelude::*;
use vstd::string::*;

verus! {

/// A day of the Gregorian calendar.
#[derive(Clone, Copy, Debug, PartialEq, Eq, Structural)]
pub struct CalendarDate {
    pub year: i32,
    pub month: u32,
    pub day: u32,
}

/// `year` is a leap year.
pub open spec fn leap_year(year: int) -> bool {
    year % 4 == 0 && (year % 100 != 0 || year % 400 == 0)
}

/// The number of days of a month.
pub open spec fn days_in_month(year: int, month: int) -> int {
    if month == 2 {
        if leap_year(year) {
            29
        } else {
            28
        }
    } else if month == 4 || month == 6 || month == 9 || month == 11 {
        30
    } else {
        31
    }
}

impl CalendarDate {
    /// The calendar has this day.
    pub open spec fn valid(self) -> bool {
        &&& 1 <= self.month <= 12
        &&& 1 <= self.day <= days_in_month(self.year as int, self.month as int)
    }

    /// The day lies in one of the years that four digits can write.
    pub open spec fn four_digit_year(self) -> bool {
        0 <= self.year <= 9999
    }

    /// This day comes before `other`.
    pub open spec fn before(self, other: CalendarDate) -> bool {
        ||| self.year < other.year
        ||| self.year == other.year && self.month < other.month
        ||| self.year == other.year && self.month == other.month && self.day < other.day
    }
}

/// A year: four digits, or a sign and at least four digits where it is negative or has more.
pub open spec fn year_text(year: int) -> Seq<char> {
    if 0 <= year <= 9999 {
        numbers::decimal(year as nat, 4)
    } else if year > 9999 {
        seq!['+'] + numbers::decimal(year as nat, 4)
    } else {
        seq!['-'] + numbers::decimal((-year) as nat, 4)
    }
}

/// The form that dates are kept in: year, month and day with hyphens between.
pub open spec fn date_text(date: CalendarDate) -> Seq<char> {
    year_text(date.year as int) + seq!['-'] + numbers::decimal(date.month as nat, 2) + seq!['-'] + numbers::decimal(
        date.day as nat,
        2,
    )
}

/// Year, month and day of the date that chrono reads from an RFC 3339 date and time, in the offset
/// that stands there.
pub uninterp spec fn rfc3339_date(raw: Seq<char>) -> Option<(i32, u32, u32)>;

/// Year, month and day that chrono reads from `raw` as a date in the form `format`.
pub uninterp spec fn date_in_form(raw: Seq<char>, format: Seq<char>) -> Option<(i32, u32, u32)>;

/// Year, month and day that chrono reads from `raw` as a date and time in the form `format`.
pub uninterp spec fn datetime_in_form(raw: Seq<char>, format: Seq<char>) -> Option<(i32, u32, u32)>;

/// The day that a triple of year, month and day stands for.
pub open spec fn day_of(ymd: (i32, u32, u32)) -> CalendarDate {
    CalendarDate { year: ymd.0, month: ymd.1, day: ymd.2 }
}

/// `raw` is the text of `date`, a day of the calendar in a year of four digits.
pub open spec fn kept_form(raw: Seq<char>, date: CalendarDate) -> bool {
    date.valid() && date.four_digit_year() && raw == date_text(date)
}

/// `DateTime::parse_from_rfc3339` reads a date and time; the contract names the day of it, a
/// function of the text, and says that the calendar has that day, and that a date in the form that
/// dates are kept in is too short to be a date and time.
#[verifier::external_body]
fn parse_rfc3339(raw: &str) -> (r: Option<(i32, u32, u32)>)
    ensures
        r == rfc3339_date(raw@),
        r matches Some(ymd) ==> day_of(ymd).valid(),
        forall|date: CalendarDate| kept_form(raw@, date) ==> r is None,
{
    DateTime::parse_from_rfc3339(raw).ok().map(|d| (d.year(), d.month(), d.day()))
}

/// `NaiveDate::parse_from_str` reads a date in a given form; the contract names that date, a
/// function of the text and the form, and says that the calendar has that day, and that in the form
/// of a year, a month and a day with hyphens between a date is read as it is kept.
#[verifier::external_body]
fn parse_date(raw: &str, format: &str) -> (r: Option<(i32, u32, u32)>)
    ensures
        r == date_in_form(raw@, format@),
        r matches Some(ymd) ==> day_of(ymd).valid(),
        format@ == "%Y-%m-%d"@ ==> forall|date: CalendarDate|
            kept_form(raw@, date) ==> r == Some((date.year, date.month, date.day)),
{
    NaiveDate::parse_from_str(raw, format).ok().map(|d| (d.year(), d.month(), d.day()))
}

/// `NaiveDateTime::parse_from_str` reads a date and time in a given form; the contract names the
/// day of it, a function of the text and the form, and says that the calendar has that day.
#[verifier::external_body]
fn parse_datetime(raw: &str, format: &str) -> (r: Option<(i32, u32, u32)>)
    ensures
        r == datetime_in_form(raw@, format@),
        r matches Some(ymd) ==> day_of(ymd).valid(),
{
    NaiveDateTime::parse_from_str(raw, format).ok().map(|d| (d.year(), d.month(), d.day()))
}

/// The text of a date.
pub fn format_date(date: CalendarDate) -> (r: String)
    ensures
        r@ == date_text(date),
{
    let mut r = String::new();
    if 0 <= date.year && date.year <= 9999 {
        r.append(numbers::write_decimal(date.year as u64, 4).as_str());
    } else if date.year > 9999 {
        r.push('+');
        r.append(numbers::write_decimal(date.year as u64, 4).as_str());
    } else {
        r.push('-');
        r.append(numbers::write_decimal((-(date.year as i64)) as u64, 4).as_str());
    }
    assert(r@ == year_text(date.year as int));
    r.push('-');
    r.append(numbers::write_decimal(date.month as u64, 2).as_str());
    r.push('-');
    r.append(numbers::write_decimal(date.day as u64, 2).as_str());
    assert(r@ == date_text(date));
    r
}

/// The forms that a date may stand in, besides the one that dates are kept in.
pub open spec fn other_forms() -> Seq<Seq<char>> {
    seq!["%Y-%m-%dT%H:%M:%S%.f"@, "%Y/%m/%d"@, "%B %d, %Y"@, "%d %B %Y"@, "%b %d, %Y"@]
}

/// The day that `raw` names in the first of `forms` that fits, as a date or as a date and time.
pub open spec fn day_in_forms(raw: Seq<char>, forms: Seq<Seq<char>>) -> Option<(i32, u32, u32)>
    decreases forms.len(),
{
    if forms.len() == 0 {
        None
    } else if date_in_form(raw, forms[0]) is Some {
        date_in_form(raw, forms[0])
    } else if datetime_in_form(raw, forms[0]) is Some {
        datetime_in_form(raw, forms[0])
    } else {
        day_in_forms(raw, forms.drop_first())
    }
}

/// The day that `raw` names.
pub open spec fn day_named(raw: Seq<char>) -> Option<(i32, u32, u32)> {
    if rfc3339_date(raw) is Some {
        rfc3339_date(raw)
    } else if date_in_form(raw, "%Y-%m-%d"@) is Some {
        date_in_form(raw, "%Y-%m-%d"@)
    } else {
        day_in_forms(raw, other_forms())
    }
}

/// The day that `raw` names, in the form that dates are kept in.
pub open spec fn normalized_date(raw: Seq<char>) -> Option<Seq<char>> {
    let trimmed = text::trimmed(raw);
    if trimmed.len() == 0 {
        None
    } else {
        match day_named(trimmed) {
            Some(ymd) => Some(date_text(day_of(ymd))),
            None => None,
        }
    }
}

fn find_day(raw: &str) -> (r: Option<(i32, u32, u32)>)
    ensures
        r == day_named(raw@),
        r matches Some(ymd) ==> day_of(ymd).valid(),
        forall|date: CalendarDate|
            kept_form(raw@, date) ==> r == Some((date.year, date.month, date.day)),
{
    let rfc = parse_rfc3339(raw);
    if rfc.is_some() {
        return rfc;
    }
    let plain = parse_date(raw, "%Y-%m-%d");
    if plain.is_some() {
        return plain;
    }
    let forms: Vec<&str> = vec![
        "%Y-%m-%dT%H:%M:%S%.f",
        "%Y/%m/%d",
        "%B %d, %Y",
        "%d %B %Y",
        "%b %d, %Y",
    ];
    let ghost views = forms.deep_view();
    assert(views == other_forms());
    assert(views.skip(0) == views);
    let mut i: usize = 0;
    while i < forms.len()
        invariant
            i <= forms.len(),
            views == forms.deep_view(),
            day_named(raw@) == day_in_forms(raw@, views.skip(i as int)),
            forall|date: CalendarDate| !kept_form(raw@, date),
        decreases forms.len() - i,
    {
        assert(views.skip(i as int)[0] == forms@[i as int]@);
        assert(views.skip(i as int).drop_first() == views.skip(i + 1));
        let date = parse_date(raw, forms[i]);
        if date.is_some() {
            return date;
        }
        let datetime = parse_datetime(raw, forms[i]);
        if datetime.is_some() {
            return datetime;
        }
        i = i + 1;
    }
    None
}

/// A date in the form that dates are kept in is not empty and has no white space at either end.
pub proof fn lemma_kept_form_is_trimmed(raw: Seq<char>, date: CalendarDate)
    requires
        kept_form(raw, date),
    ensures
        raw.len() > 0,
        text::trimmed(raw) == raw,
{
    let year = numbers::decimal(date.year as nat, 4);
    let day = numbers::decimal(date.day as nat, 2);
    numbers::lemma_decimal_digits(date.year as nat, 4);
    numbers::lemma_decimal_digits(date.day as nat, 2);
    assert(raw[0] == year[0]);
    assert(raw.last() == day[day.len() - 1]);
}

/// White space at either end of a text plays no part in the day that it names.
pub proof fn lemma_white_space_around_dates(before: Seq<char>, raw: Seq<char>, after: Seq<char>)
    requires
        text::all_white(before),
        text::all_white(after),
    ensures
        normalized_date(before + raw + after) == normalized_date(raw),
        normalized_date(text::trimmed(raw)) == normalized_date(raw),
{
    text::lemma_trimmed_padding(before, raw, after);
    text::lemma_trimmed(raw);
}

/// The day that `raw` names, in the form that dates are kept in; `None` where it names none. A date
/// in that form, with a year of four digits, is read back as itself.
pub fn normalize_date_str(raw: &str) -> (r: Option<String>)
    ensures
        r.deep_view() == normalized_date(raw@),
        r matches Some(t) ==> exists|date: CalendarDate|
            date.valid() && t@ == #[trigger] date_text(date),
        forall|date: CalendarDate|
            kept_form(text::trimmed(raw@), date) ==> r.deep_view() == Some(text::trimmed(raw@)),
        forall|date: CalendarDate| kept_form(raw@, date) ==> r.deep_view() == Some(raw@),
{
    assert forall|date: CalendarDate| kept_form(raw@, date) implies kept_form(
        text::trimmed(raw@),
        date,
    ) && text::trimmed(raw@) == raw@ by {
        lemma_kept_form_is_trimmed(raw@, date);
    }
    assert forall|date: CalendarDate| kept_form(text::trimmed(raw@), date) implies text::trimmed(
        raw@,
    ).len() > 0 by {
        lemma_kept_form_is_trimmed(text::trimmed(raw@), date);
    }
    let raw = text::trim(raw);
    if raw.is_empty() {
        return None;
    }
    match find_day(raw) {
        Some((year, month, day)) => {
            let date = CalendarDate { year, month, day };
            assert(date.valid());
            Some(format_date(date))
        },
        None => None,
    }
}

/// The date that an element gives: that in its first attribute, or where it has none in its second.
pub open spec fn stamp(row: Seq<Option<Seq<char>>>) -> Option<Seq<char>> {
    if row[0] is Some {
        row[0]
    } else {
        row[1]
    }
}

/// The first date that the elements `rows` give.
pub open spec fn first_stamp(rows: Seq<Seq<Option<Seq<char>>>>) -> Option<Seq<char>>
    decreases rows.len(),
{
    if rows.len() == 0 {
        None
    } else {
        match stamp(rows[0]) {
            Some(raw) => if normalized_date(raw) is Some {
                normalized_date(raw)
            } else {
                first_stamp(rows.drop_first())
            },
            None => first_stamp(rows.drop_first()),
        }
    }
}

/// The first date that the elements `rows` give. Each row holds the values of two attributes.
pub fn first_stamped_date(rows: &Vec<Vec<Option<String>>>) -> (r: Option<String>)
    requires
        forall|i: int| 0 <= i < rows.len() ==> (#[trigger] rows@[i]).len() == 2,
    ensures
        r.deep_view() == first_stamp(rows.deep_view()),
{
    let ghost views = rows.deep_view();
    assert(views.skip(0) == views);
    let mut i: usize = 0;
    while i < rows.len()
        invariant
            i <= rows.len(),
            views == rows.deep_view(),
            forall|j: int| 0 <= j < rows.len() ==> (#[trigger] rows@[j]).len() == 2,
            first_stamp(views) == first_stamp(views.skip(i as int)),
        decreases rows.len() - i,
    {
        let row = &rows[i];
        assert(views.skip(i as int)[0] == row.deep_view());
        assert(views.skip(i as int).drop_first() == views.skip(i + 1));
        assert(row.deep_view()[0] == row@[0].deep_view());
        assert(row.deep_view()[1] == row@[1].deep_view());
        let value = if row[0].is_some() {
            &row[0]
        } else {
            &row[1]
        };
        if let Some(raw) = value {
            let date = normalize_date_str(raw.as_str());
            if date.is_some() {
                return date;
            }
        }
        i = i + 1;
    }
    None
}

/// Where a page may give the date of its publication, in the order in which it is asked.
pub open spec fn date_selectors() -> Seq<Seq<char>> {
    seq![
        "meta[property='article:published_time']"@,
        "meta[property='og:published_time']"@,
        "meta[name='publish_date']"@,
        "meta[name='date']"@,
        "meta[name='DC.date']"@,
        "time[datetime]"@,
    ]
}

/// The attributes that may hold a date.
pub open spec fn date_attributes() -> Seq<Seq<char>> {
    seq!["content"@, "datetime"@]
}

/// The first date that `document` gives at the places `selectors`.
pub open spec fn date_at(document: Html, selectors: Seq<Seq<char>>) -> Option<Seq<char>>
    decreases selectors.len(),
{
    if selectors.len() == 0 {
        None
    } else {
        match html::selected_attributes(document, selectors[0], date_attributes()) {
            Some(rows) => if first_stamp(rows) is Some {
                first_stamp(rows)
            } else {
                date_at(document, selectors.drop_first())
            },
            None => date_at(document, selectors.drop_first()),
        }
    }
}

/// The date of publication that `document` gives.
pub open spec fn publish_date(document: Html) -> Option<Seq<char>> {
    date_at(document, date_selectors())
}

/// The date of publication that a page gives, in the form that dates are kept in. A page that
/// gives none has no date.
pub fn extract_publish_date(document: &Html) -> (r: Option<String>)
    ensures
        r.deep_view() == publish_date(*document),
{
    let selectors: Vec<&str> = vec![
        "meta[property='article:published_time']",
        "meta[property='og:published_time']",
        "meta[name='publish_date']",
        "meta[name='date']",
        "meta[name='DC.date']",
        "time[datetime]",
    ];
    let names: Vec<&str> = vec!["content", "datetime"];
    assert(names.deep_view() == date_attributes());
    let ghost views = selectors.deep_view();
    assert(views == date_selectors());
    assert(views.skip(0) == views);
    let mut i: usize = 0;
    while i < selectors.len()
        invariant
            i <= selectors.len(),
            names.len() == 2,
            names.deep_view() == date_attributes(),
            views == selectors.deep_view(),
            publish_date(*document) == date_at(*document, views.skip(i as int)),
        decreases selectors.len() - i,
    {
        assert(views.skip(i as int)[0] == selectors@[i as int]@);
        assert(views.skip(i as int).drop_first() == views.skip(i + 1));
        if let Some(rows) = html::select_attributes(document, selectors[i], &names) {
            let date = first_stamped_date(&rows);
            if date.is_some() {
                return date;
            }
        }
        i = i + 1;
    }
    None
}

spec fn power_of_ten(width: nat) -> nat
    decreases width,
{
    if width == 0 {
        1
    } else {
        10 * power_of_ten((width - 1) as nat)
    }
}

/// Numbers of the same number of digits are ordered as their texts are.
proof fn lemma_decimal_order(a: nat, b: nat, width: nat, x: Seq<char>, y: Seq<char>)
    requires
        a < b,
        b < power_of_ten(width),
        width > 0,
    ensures
        text::lex_lt(numbers::decimal(a, width) + x, numbers::decimal(b, width) + y),
    decreases width,
{
    if width == 1 {
        reveal_with_fuel(power_of_ten, 2);
        let p = numbers::decimal(a, width) + x;
        let q = numbers::decimal(b, width) + y;
        assert(p[0] == numbers::digit(a as int));
        assert(q[0] == numbers::digit(b as int));
    } else {
        let narrower = (width - 1) as nat;
        let x1 = seq![numbers::digit(a as int % 10)] + x;
        let y1 = seq![numbers::digit(b as int % 10)] + y;
        assert(numbers::decimal(a, width) + x == numbers::decimal(a / 10, narrower) + x1);
        assert(numbers::decimal(b, width) + y == numbers::decimal(b / 10, narrower) + y1);
        if a / 10 < b / 10 {
            lemma_decimal_order(a / 10, b / 10, narrower, x1, y1);
        } else {
            assert(a / 10 == b / 10);
            text::lemma_lex_common_prefix(numbers::decimal(a / 10, narrower), x1, y1);
            assert(x1[0] == numbers::digit(a as int % 10));
            assert(y1[0] == numbers::digit(b as int % 10));
        }
    }
}

proof fn lemma_earlier_date_comes_first(a: CalendarDate, b: CalendarDate)
    requires
        a.valid(),
        b.valid(),
        a.four_digit_year(),
        b.four_digit_year(),
        a.before(b),
    ensures
        text::lex_lt(date_text(a), date_text(b)),
{
    reveal_with_fuel(power_of_ten, 5);
    let hyphen = seq!['-'];
    let day_a = numbers::decimal(a.day as nat, 2);
    let day_b = numbers::decimal(b.day as nat, 2);
    let none = Seq::<char>::empty();
    let rest_a = hyphen + (numbers::decimal(a.month as nat, 2) + (hyphen + (day_a + none)));
    let rest_b = hyphen + (numbers::decimal(b.month as nat, 2) + (hyphen + (day_b + none)));
    assert(date_text(a) == numbers::decimal(a.year as nat, 4) + rest_a);
    assert(date_text(b) == numbers::decimal(b.year as nat, 4) + rest_b);
    if a.year < b.year {
        lemma_decimal_order(a.year as nat, b.year as nat, 4, rest_a, rest_b);
    } else {
        text::lemma_lex_common_prefix(numbers::decimal(a.year as nat, 4), rest_a, rest_b);
        let month_a = numbers::decimal(a.month as nat, 2) + (hyphen + (day_a + none));
        let month_b = numbers::decimal(b.month as nat, 2) + (hyphen + (day_b + none));
        text::lemma_lex_common_prefix(hyphen, month_a, month_b);
        if a.month < b.month {
            lemma_decimal_order(
                a.month as nat,
                b.month as nat,
                2,
                hyphen + (day_a + none),
                hyphen + (day_b + none),
            );
        } else {
            text::lemma_lex_common_prefix(
                numbers::decimal(a.month as nat, 2),
                hyphen + (day_a + none),
                hyphen + (day_b + none),
            );
            text::lemma_lex_common_prefix(hyphen, day_a + none, day_b + none);
            lemma_decimal_order(a.day as nat, b.day as nat, 2, none, none);
        }
    }
}

/// Dates in the form that they are kept in are ordered as the days are, so that date filters may
/// compare texts. This holds of the years that four digits can write.
pub proof fn lemma_date_texts_order_days(a: CalendarDate, b: CalendarDate)
    requires
        a.valid(),
        b.valid(),
        a.four_digit_year(),
        b.four_digit_year(),
    ensures
        text::lex_lt(date_text(a), date_text(b)) <==> a.before(b),
        date_text(a) == date_text(b) <==> a == b,
{
    text::lemma_lex_irreflexive(date_text(a));
    text::lemma_lex_asymmetric(date_text(a), date_text(b));
    if a.before(b) {
        lemma_earlier_date_comes_first(a, b);
    } else if b.before(a) {
        lemma_earlier_date_comes_first(b, a);
    }
}

proof fn lemma_leap_year(year: int)
    ensures
        leap_year(year) <==> year % 400 == 0 || (year % 4 == 0 && year % 100 != 0),
{
    if year % 400 == 0 {
        assert(year == 400 * (year / 400));
        assert(year % 4 == 0);
    }
}

/// The days of the calendar: twelve months of thirty-one days, but thirty in April, June, September
/// and November and twenty-eight in February, which has one more in every fourth year but not in a
/// hundredth that is no four hundredth.
pub proof fn lemma_calendar(date: CalendarDate)
    ensures
        date.valid() <==> {
            &&& 1 <= date.month <= 12 && 1 <= date.day <= 31
            &&& date.month == 4 || date.month == 6 || date.month == 9 || date.month == 11
                ==> date.day <= 30
            &&& date.month == 2 ==> date.day <= 29
            &&& date.month == 2 && date.day == 29 ==> date.year as int % 400 == 0 || (
            date.year as int % 4 == 0 && date.year as int % 100 != 0)
        },
{
    lemma_leap_year(date.year as int);
}

/// A day of a year of four digits is kept as these digits, a hyphen, two digits for the month, a
/// hyphen, and two for the day.
pub proof fn lemma_date_text(date: CalendarDate)
    requires
        date.valid(),
    ensures
        date.four_digit_year() ==> ({
            let f = |value: int, c: char| 10 * value + (c as int - '0' as int);
            let t = date_text(date);
            &&& t.len() == 10 && t[4] == '-' && t[7] == '-'
            &&& t.take(4).fold_left(0int, f) == date.year
            &&& t.subrange(5, 7).fold_left(0int, f) == date.month
            &&& t.skip(8).fold_left(0int, f) == date.day
        }),
        date.year > 9999 ==> date_text(date) == seq!['+'] + numbers::decimal(date.year as nat, 4)
            + date_text(CalendarDate { year: 0, month: date.month, day: date.day }).skip(4),
        date.year < 0 ==> date_text(date) == seq!['-'] + numbers::decimal((-date.year) as nat, 4)
            + date_text(CalendarDate { year: 0, month: date.month, day: date.day }).skip(4),
{
    reveal_with_fuel(numbers::decimal, 5);
    let t = date_text(date);
    let month = numbers::decimal(date.month as nat, 2);
    let day = numbers::decimal(date.day as nat, 2);
    numbers::lemma_decimal(date.month as nat, 2);
    numbers::lemma_decimal(date.day as nat, 2);
    assert(month.len() == 2 && day.len() == 2);
    let zero = CalendarDate { year: 0, month: date.month, day: date.day };
    let tail = seq!['-'] + month + seq!['-'] + day;
    assert(numbers::decimal(0, 4).len() == 4);
    assert(date_text(zero).skip(4) == tail);
    assert(t == year_text(date.year as int) + tail);
    if date.four_digit_year() {
        let year = numbers::decimal(date.year as nat, 4);
        numbers::lemma_decimal(date.year as nat, 4);
        assert(year.len() == 4);
        assert(t.take(4) == year);
        assert(t.subrange(5, 7) == month);
        assert(t.skip(8) == day);
    }
}

/// The day that a text names is read in the first form that fits: as a date and time of RFC 3339,
/// in the form that dates are kept in, and then in five other forms, in each first as a date and
/// then as a date and time.
pub proof fn lemma_day_named(raw: Seq<char>)
    ensures
        day_named(raw) == {
            let in_form = |form: Seq<char>|
                if date_in_form(raw, form) is Some {
                    date_in_form(raw, form)
                } else {
                    datetime_in_form(raw, form)
                };
            if rfc3339_date(raw) is Some {
                rfc3339_date(raw)
            } else if date_in_form(raw, "%Y-%m-%d"@) is Some {
                date_in_form(raw, "%Y-%m-%d"@)
            } else if in_form("%Y-%m-%dT%H:%M:%S%.f"@) is Some {
                in_form("%Y-%m-%dT%H:%M:%S%.f"@)
            } else if in_form("%Y/%m/%d"@) is Some {
                in_form("%Y/%m/%d"@)
            } else if in_form("%B %d, %Y"@) is Some {
                in_form("%B %d, %Y"@)
            } else if in_form("%d %B %Y"@) is Some {
                in_form("%d %B %Y"@)
            } else {
                in_form("%b %d, %Y"@)
            }
        },
{
    reveal_with_fuel(day_in_forms, 6);
    let forms = other_forms();
    assert(forms.skip(0) == forms);
    assert(forms.drop_first() == forms.skip(1));
    assert(forms.skip(1).drop_first() == forms.skip(2));
    assert(forms.skip(2).drop_first() == forms.skip(3));
    assert(forms.skip(3).drop_first() == forms.skip(4));
    assert(forms.skip(4).drop_first() == forms.skip(5));
}

/// A text with white space around it names the day that it names without, and white space names
/// none.
pub proof fn lemma_normalized_date(before: Seq<char>, raw: Seq<char>, after: Seq<char>)
    requires
        forall|i: int| 0 <= i < before.len() ==> text::white_space(#[trigger] before[i]),
        forall|i: int| 0 <= i < after.len() ==> text::white_space(#[trigger] after[i]),
        raw.len() > 0 ==> !text::white_space(raw[0]) && !text::white_space(raw.last()),
    ensures
        raw.len() == 0 ==> normalized_date(before + raw + after) is None,
        raw.len() > 0 && day_named(raw) is None ==> normalized_date(before + raw + after) is None,
        raw.len() > 0 ==> (day_named(raw) matches Some((year, month, day)) ==> normalized_date(
            before + raw + after,
        ) == Some(date_text(CalendarDate { year, month, day }))),
{
    text::lemma_trimmed_is(before, raw, after);
}

proof fn lemma_stamp_of_first(rows: Seq<Seq<Option<Seq<char>>>>)
    requires
        rows.len() > 0,
    ensures
        first_stamp(rows) == if stamped(rows[0]) is Some {
            stamped(rows[0])
        } else {
            first_stamp(rows.drop_first())
        },
{
}

/// The date of a row of elements is that of the first element that gives one, and there is none
/// where no element does. An element gives the date in its first attribute, or where it has no such
/// attribute that in its second.
pub proof fn lemma_first_stamp(rows: Seq<Seq<Option<Seq<char>>>>, k: int)
    requires
        0 <= k <= rows.len(),
        forall|j: int| 0 <= j < k ==> stamped(#[trigger] rows[j]) is None,
        k < rows.len() ==> stamped(rows[k]) is Some,
    ensures
        first_stamp(rows) == if k < rows.len() {
            stamped(rows[k])
        } else {
            None
        },
    decreases k,
{
    if rows.len() > 0 {
        lemma_stamp_of_first(rows);
        if k > 0 {
            let rest = rows.drop_first();
            assert(stamped(rows[0]) is None);
            assert forall|j: int| 0 <= j < k - 1 implies stamped(#[trigger] rest[j]) is None by {
                assert(rest[j] == rows[j + 1]);
            }
            lemma_first_stamp(rest, k - 1);
        }
    }
}

/// The date that an element with two attributes gives.
pub open spec fn stamped(row: Seq<Option<Seq<char>>>) -> Option<Seq<char>> {
    match (row[0], row[1]) {
        (Some(first), _) => normalized_date(first),
        (None, Some(second)) => normalized_date(second),
        (None, None) => None,
    }
}

/// A page is asked for its date in six places, one after the other: four properties and names that
/// metadata may go by, one of the Dublin Core, and its time elements. The first that gives a date is
/// believed.
pub proof fn lemma_publish_date(document: Html)
    ensures
        publish_date(document) == {
            let at = |place: Seq<char>|
                match html::selected_attributes(document, place, seq!["content"@, "datetime"@]) {
                    Some(rows) => first_stamp(rows),
                    None => None,
                };
            if at("meta[property='article:published_time']"@) is Some {
                at("meta[property='article:published_time']"@)
            } else if at("meta[property='og:published_time']"@) is Some {
                at("meta[property='og:published_time']"@)
            } else if at("meta[name='publish_date']"@) is Some {
                at("meta[name='publish_date']"@)
            } else if at("meta[name='date']"@) is Some {
                at("meta[name='date']"@)
            } else if at("meta[name='DC.date']"@) is Some {
                at("meta[name='DC.date']"@)
            } else {
                at("time[datetime]"@)
            }
        },
{
    reveal_with_fuel(date_at, 7);
    let places = date_selectors();
    assert(places.skip(0) == places);
    assert(places.drop_first() == places.skip(1));
    assert(places.skip(1).drop_first() == places.skip(2));
    assert(places.skip(2).drop_first() == places.skip(3));
    assert(places.skip(3).drop_first() == places.skip(4));
    assert(places.skip(4).drop_first() == places.skip(5));
    assert(places.skip(5).drop_first() == places.skip(6));
}

} // verus!
