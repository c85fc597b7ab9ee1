use github_actions_execution_time_collector::dates::{
    parse_date, parse_date_fields, DateError, DateWindow,
};
use github_actions_execution_time_collector::text::{
    chars_of, read_i32, read_u32, span_contains, split_spans,
};

#[test]
fn date_is_the_start_of_its_day_in_utc() {
    assert_eq!(parse_date("2024-01-01"), Ok(1704067200));
    assert_eq!(parse_date("2024-01-02"), Ok(1704153600));
    assert_eq!(parse_date("2024-02-29"), Ok(1709164800));
    assert_eq!(parse_date("1970-01-01"), Ok(0));
    assert_eq!(parse_date("2021-09-03"), Ok(1630627200));
}

#[test]
fn date_fields_need_no_padding() {
    assert_eq!(parse_date("2024-1-5"), Ok(1704412800));
    assert_eq!(parse_date("+2024-+1-+5"), Ok(1704412800));
    assert_eq!(parse_date("1-1-1"), Ok(-62135596800));
    assert_eq!(parse_date_fields("2024-01-05"), Ok((2024, 1, 5)));
}

#[test]
fn date_with_too_many_fields() {
    assert_eq!(parse_date("2024-01-05-99"), Err(DateError::ExtraField));
    assert_eq!(parse_date("2024-01-05-0-0"), Err(DateError::ExtraField));
    assert_eq!(parse_date_fields("1-2-3-4"), Err(DateError::ExtraField));
    assert_eq!(parse_date("2024-01-05-x"), Err(DateError::NotANumber));
    assert_eq!(parse_date("2024-01-05-"), Err(DateError::NotANumber));
}

#[test]
fn date_with_a_field_that_is_no_number() {
    assert_eq!(parse_date("2024-xx-01"), Err(DateError::NotANumber));
    assert_eq!(parse_date("2024--01"), Err(DateError::NotANumber));
    assert_eq!(parse_date("-2024-01-01"), Err(DateError::NotANumber));
    assert_eq!(parse_date(""), Err(DateError::NotANumber));
    assert_eq!(parse_date("2024/01/01"), Err(DateError::NotANumber));
    assert_eq!(parse_date("4294967296-01-01"), Err(DateError::NotANumber));
    assert_eq!(parse_date("x"), Err(DateError::NotANumber));
}

#[test]
fn date_with_too_few_fields() {
    assert_eq!(parse_date("2024-01"), Err(DateError::MissingField));
    assert_eq!(parse_date("2024"), Err(DateError::MissingField));
}

#[test]
fn date_that_the_calendar_does_not_have() {
    assert_eq!(parse_date("2024-02-30"), Err(DateError::NoSuchDay));
    assert_eq!(parse_date("2023-02-29"), Err(DateError::NoSuchDay));
    assert_eq!(parse_date("2024-13-01"), Err(DateError::NoSuchDay));
    assert_eq!(parse_date("2024-00-10"), Err(DateError::NoSuchDay));
    assert_eq!(parse_date("2024-01-00"), Err(DateError::NoSuchDay));
    assert_eq!(parse_date("2147483647-01-01"), Err(DateError::NoSuchDay));
}

#[test]
fn year_above_the_signed_range_is_no_year() {
    assert_eq!(parse_date("4294967295-01-01"), Err(DateError::NoSuchDay));
    assert_eq!(parse_date("2147483648-01-01"), Err(DateError::NoSuchDay));
    assert_eq!(parse_date("4294967000-01-05"), Err(DateError::NoSuchDay));
    assert_eq!(parse_date_fields("4294967295-01-01"), Ok((4294967295, 1, 1)));
}

#[test]
fn window_from_two_dates() {
    let window = DateWindow::from_dates("2024-01-02", "2024-01-04").unwrap();
    assert_eq!(window, DateWindow::new(1704153600, 1704326400));
    assert_eq!(window.from, 1704153600);
    assert_eq!(window.to, 1704326400);
}

#[test]
fn window_reports_the_first_date_that_is_refused() {
    assert_eq!(
        DateWindow::from_dates("2024-01", "2024-xx-04"),
        Err(DateError::MissingField)
    );
    assert_eq!(
        DateWindow::from_dates("2024-01-02", "2024-02-30"),
        Err(DateError::NoSuchDay)
    );
    assert_eq!(
        DateWindow::from_dates("x", "2024-01-04"),
        Err(DateError::NotANumber)
    );
    assert_eq!(
        DateWindow::from_dates("2024-01-02", "2024-01-04-1"),
        Err(DateError::ExtraField)
    );
}

#[test]
fn window_includes_both_ends() {
    let window = DateWindow::new(100, 200);
    assert!(window.contains(100));
    assert!(window.contains(150));
    assert!(window.contains(200));
    assert!(!window.contains(99));
    assert!(!window.contains(201));
    assert!(window.starts_after(99));
    assert!(!window.starts_after(100));
    assert!(!window.starts_after(101));
}

#[test]
fn window_of_one_instant() {
    let window = DateWindow::new(5, 5);
    assert!(window.contains(5));
    assert!(!window.contains(4));
    assert!(!window.contains(6));
}

#[test]
fn inverted_window_holds_nothing() {
    let window = DateWindow::from_dates("2024-01-04", "2024-01-02").unwrap();
    assert!(window.from > window.to);
    assert!(!window.contains(1704153600));
    assert!(!window.contains(1704240000));
    assert!(!window.contains(1704326400));
    assert!(!window.contains(i64::MIN));
    assert!(!window.contains(i64::MAX));
}

#[test]
fn split_keeps_empty_pieces() {
    let chars = chars_of("a,,bc,");
    assert_eq!(split_spans(&chars, ','), vec![(0, 1), (2, 2), (3, 5), (6, 6)]);
    let chars = chars_of("");
    assert_eq!(split_spans(&chars, ','), vec![(0, 0)]);
    let chars = chars_of("abc");
    assert_eq!(split_spans(&chars, ','), vec![(0, 3)]);
    let chars = chars_of(",");
    assert_eq!(split_spans(&chars, ','), vec![(0, 0), (1, 1)]);
}

#[test]
fn chars_are_counted_not_bytes() {
    let chars = chars_of("\u{00e9}t\u{00e9},x");
    assert_eq!(chars.len(), 5);
    assert_eq!(split_spans(&chars, ','), vec![(0, 3), (4, 5)]);
}

#[test]
fn search_inside_a_span() {
    let text = chars_of("one two three");
    let two = chars_of("two");
    assert!(span_contains(&text, 0, 13, &two));
    assert!(span_contains(&text, 4, 7, &two));
    assert!(!span_contains(&text, 4, 6, &two));
    assert!(!span_contains(&text, 5, 13, &two));
    assert!(!span_contains(&text, 0, 3, &two));
    assert!(span_contains(&text, 3, 3, &chars_of("")));
    assert!(!span_contains(&text, 0, 13, &chars_of("twoo")));
    assert!(span_contains(&text, 0, 13, &chars_of("three")));
    assert!(span_contains(&text, 0, 13, &chars_of("one two three")));
    assert!(!span_contains(&text, 0, 13, &chars_of("one two three ")));
}

#[test]
fn unsigned_numbers() {
    let read = |s: &str| {
        let chars = chars_of(s);
        read_u32(&chars, 0, chars.len())
    };
    assert_eq!(read("0"), Some(0));
    assert_eq!(read("42"), Some(42));
    assert_eq!(read("+42"), Some(42));
    assert_eq!(read("0042"), Some(42));
    assert_eq!(read("4294967295"), Some(4294967295));
    assert_eq!(read("4294967296"), None);
    assert_eq!(read("00000000004294967295"), Some(4294967295));
    assert_eq!(read("-1"), None);
    assert_eq!(read("-0"), None);
    assert_eq!(read(""), None);
    assert_eq!(read("+"), None);
    assert_eq!(read("++1"), None);
    assert_eq!(read("1 "), None);
    assert_eq!(read(" 1"), None);
    assert_eq!(read("1_000"), None);
    assert_eq!(read("\u{0663}"), None);
}

#[test]
fn signed_numbers() {
    let read = |s: &str| {
        let chars = chars_of(s);
        read_i32(&chars, 0, chars.len())
    };
    assert_eq!(read("0"), Some(0));
    assert_eq!(read("-0"), Some(0));
    assert_eq!(read("17"), Some(17));
    assert_eq!(read("+17"), Some(17));
    assert_eq!(read("-17"), Some(-17));
    assert_eq!(read("2147483647"), Some(2147483647));
    assert_eq!(read("2147483648"), None);
    assert_eq!(read("-2147483648"), Some(-2147483648));
    assert_eq!(read("-2147483649"), None);
    assert_eq!(read("-"), None);
    assert_eq!(read("+-1"), None);
    assert_eq!(read("-+1"), None);
    assert_eq!(read("--1"), None);
    assert_eq!(read("1-"), None);
}

#[test]
fn numbers_inside_a_span() {
    let chars = chars_of("ab123cd");
    assert_eq!(read_u32(&chars, 2, 5), Some(123));
    assert_eq!(read_u32(&chars, 2, 4), Some(12));
    assert_eq!(read_u32(&chars, 1, 5), None);
    assert_eq!(read_u32(&chars, 3, 3), None);
    assert_eq!(read_i32(&chars, 4, 5), Some(3));
}
