use chrono::NaiveDate;
use flooglyflup::dates::{self, CalendarDate};
use scraper::Html;

fn normalized(raw: &str) -> Option<String> {
    dates::normalize_date_str(raw)
}

#[test]
fn dates_are_kept_in_one_form() {
    let day = Some("2024-03-05".to_string());
    assert_eq!(normalized("2024-03-05T23:30:00+02:00"), day);
    assert_eq!(normalized("2024-03-05T10:00:00Z"), day);
    assert_eq!(normalized(" 2024-03-05 "), day);
    assert_eq!(normalized("2024-3-5"), day);
    assert_eq!(normalized("2024-03-05T10:00:00.25"), day);
    assert_eq!(normalized("2024/03/05"), day);
    assert_eq!(normalized("March 05, 2024"), day);
    assert_eq!(normalized("5 March 2024"), day);
    assert_eq!(normalized("Mar 5, 2024"), day);
}

#[test]
fn what_is_no_date_has_none() {
    for raw in ["", "  ", "yesterday", "2024-02-30", "05.03.2024", "2024"] {
        assert_eq!(normalized(raw), None, "{raw}");
    }
}

#[test]
fn dates_are_written_as_chrono_writes_them() {
    for (year, month, day) in [
        (2024, 3, 5),
        (0, 1, 1),
        (999, 12, 31),
        (9999, 10, 10),
        (10000, 1, 2),
        (-1, 6, 7),
        (-12345, 11, 30),
        (262142, 12, 31),
    ] {
        let expected = NaiveDate::from_ymd_opt(year, month, day).unwrap().format("%Y-%m-%d").to_string();
        assert_eq!(dates::format_date(CalendarDate { year, month, day }), expected);
    }
}

#[test]
fn texts_of_dates_are_in_the_order_of_days() {
    let days = [(0, 1, 1), (999, 12, 31), (2023, 12, 31), (2024, 1, 1), (2024, 1, 10), (2024, 10, 1), (9999, 12, 31)];
    let texts: Vec<String> =
        days.iter().map(|&(year, month, day)| dates::format_date(CalendarDate { year, month, day })).collect();
    for pair in texts.windows(2) {
        assert!(pair[0] < pair[1]);
    }
}

#[test]
fn the_first_date_of_a_page_counts() {
    let page = Html::parse_document(
        "<meta name='date' content='2020-01-01'>
         <meta property='og:published_time' content='nonsense'>
         <meta property='og:published_time' content='2021-02-03T04:05:06Z'>
         <time datetime='2019-01-01'>then</time>",
    );
    assert_eq!(dates::extract_publish_date(&page), Some("2021-02-03".to_string()));
    let page = Html::parse_document("<time>no</time><time datetime='2019-01-01'>then</time>");
    assert_eq!(dates::extract_publish_date(&page), Some("2019-01-01".to_string()));
    let page = Html::parse_document("<meta name='DC.date' datetime='2018-07-06'>");
    assert_eq!(dates::extract_publish_date(&page), Some("2018-07-06".to_string()));
    let page = Html::parse_document("<meta name='date' content='' datetime='2018-07-06'>");
    assert_eq!(dates::extract_publish_date(&page), None);
    assert_eq!(dates::extract_publish_date(&Html::parse_document("")), None);
}

#[test]
fn the_content_of_an_element_goes_before_its_time() {
    let row = |a: Option<&str>, b: Option<&str>| vec![a.map(|s| s.to_string()), b.map(|s| s.to_string())];
    let rows = vec![row(None, None), row(Some("x"), Some("2020-01-01")), row(None, Some("2020-01-02"))];
    assert_eq!(dates::first_stamped_date(&rows), Some("2020-01-02".to_string()));
    assert_eq!(dates::first_stamped_date(&vec![]), None);
}

#[test]
fn kept_dates_are_read_back() {
    for day in ["2024-03-05", "0000-01-01", "0999-12-31", "9999-12-31", "2024-02-29"] {
        assert_eq!(normalized(day), Some(day.to_string()));
        assert_eq!(normalized(&format!("\n {day}\u{3000}")), Some(day.to_string()));
    }
    for raw in ["March 05, 2024", "2024-03-05T10:00:00Z", "nonsense"] {
        assert_eq!(normalized(&format!(" {raw}\t")), normalized(raw));
    }
}
