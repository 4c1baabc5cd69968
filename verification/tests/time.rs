use asciidork_parser::attrs::{AttrValue, DocAttrs};
use asciidork_parser::parser::Parser;
use asciidork_parser::time::{date_from_attr_or, time_from_attr_or, ZonedTime};

fn meta_str<'a>(parser: &'a Parser, key: &str) -> Option<&'a str> {
    match parser.attrs.get(key) {
        Some(AttrValue::String(s)) => Some(s.as_str()),
        _ => None,
    }
}

fn parser_with(attrs: &[(&str, &str)]) -> Parser {
    let mut doc_attrs = DocAttrs::new();
    for (k, v) in attrs {
        doc_attrs.insert(k.to_string(), AttrValue::String(v.to_string()));
    }
    Parser::new(doc_attrs)
}

#[test]
fn test_set_datetime_attrs_no_attr_overrides() {
    let mut parser = parser_with(&[]);
    assert!(parser.provide_timestamps(1734960586, Some(1734872889), None));
    assert_eq!(meta_str(&parser, "docyear"), Some("2024"));
    assert_eq!(meta_str(&parser, "docdate"), Some("2024-12-22"));
    assert_eq!(meta_str(&parser, "doctime"), Some("13:08:09+0000"));
    assert_eq!(meta_str(&parser, "docdatetime"), Some("2024-12-22 13:08:09+0000"));
    assert_eq!(meta_str(&parser, "localyear"), Some("2024"));
    assert_eq!(meta_str(&parser, "localdate"), Some("2024-12-23"));
    assert_eq!(meta_str(&parser, "localtime"), Some("13:29:46+0000"));
    assert_eq!(meta_str(&parser, "localdatetime"), Some("2024-12-23 13:29:46+0000"));
}

#[test]
fn test_override_datetime_attrs() {
    let mut parser = parser_with(&[("docdate", "2015-01-01"), ("doctime", "10:00:00-0700")]);
    assert!(parser.provide_timestamps(1734960586, Some(1734872889), None));
    assert_eq!(meta_str(&parser, "docyear"), Some("2015"));
    assert_eq!(meta_str(&parser, "docdate"), Some("2015-01-01"));
    assert_eq!(meta_str(&parser, "doctime"), Some("10:00:00-0700"));
    assert_eq!(meta_str(&parser, "docdatetime"), Some("2015-01-01 10:00:00-0700"));
    assert_eq!(meta_str(&parser, "localdatetime"), Some("2024-12-23 13:29:46+0000"));
}

#[test]
fn test_override_just_time_attrs() {
    let mut parser = parser_with(&[("doctime", "10:00:00-0700")]);
    assert!(parser.provide_timestamps(1734960586, Some(1734872889), None));
    assert_eq!(meta_str(&parser, "docyear"), Some("2024"));
    assert_eq!(meta_str(&parser, "docdate"), Some("2024-12-22"));
    assert_eq!(meta_str(&parser, "doctime"), Some("10:00:00-0700"));
    assert_eq!(meta_str(&parser, "docdatetime"), Some("2024-12-22 10:00:00-0700"));
    assert_eq!(meta_str(&parser, "localdatetime"), Some("2024-12-23 13:29:46+0000"));
}

#[test]
fn test_reproducible_override_wins() {
    let mut parser = parser_with(&[]);
    assert!(parser.provide_timestamps(1734960586, Some(1734872889), Some(1262304000)));
    assert_eq!(meta_str(&parser, "docyear"), Some("2010"));
    assert_eq!(meta_str(&parser, "doctime"), Some("00:00:00+0000"));
    assert_eq!(meta_str(&parser, "docdatetime"), Some("2010-01-01 00:00:00+0000"));
}

#[test]
fn mtime_is_used_when_no_reproducible_timestamp() {
    let mut parser = parser_with(&[]);
    assert!(parser.provide_timestamps(0, None, None));
    assert_eq!(meta_str(&parser, "docdatetime"), Some("1970-01-01 00:00:00+0000"));
    assert_eq!(meta_str(&parser, "localyear"), Some("1970"));
}

#[test]
fn unreadable_date_attr_falls_back_to_timestamp() {
    let mut parser = parser_with(&[("docdate", "yesterday"), ("doctime", "noon")]);
    assert!(parser.provide_timestamps(1734960586, Some(1734872889), None));
    assert_eq!(meta_str(&parser, "docdate"), Some("2024-12-22"));
    assert_eq!(meta_str(&parser, "doctime"), Some("13:08:09+0000"));
}

#[test]
fn timestamp_past_jiff_range_is_refused() {
    let mut parser = parser_with(&[]);
    assert!(!parser.provide_timestamps(253402207201, None, None));
    assert_eq!(meta_str(&parser, "docdate"), None);
    assert!(parser.provide_timestamps(253402207200, None, None));
    assert_eq!(meta_str(&parser, "docdate"), Some("9999-12-30"));
}

#[test]
fn date_attr_past_jiff_range_is_refused() {
    let mut parser = parser_with(&[("docdate", "9999-12-31")]);
    assert!(!parser.provide_timestamps(0, None, None));
    assert_eq!(meta_str(&parser, "docyear"), None);
    assert_eq!(date_from_attr_or(Some("9999-12-31"), 0), None);
    assert_eq!(date_from_attr_or(Some("9999-12-30"), 0), Some(ZonedTime { second: 253402128000, offset: 0 }));
}

#[test]
fn time_attr_keeps_its_offset() {
    assert_eq!(
        time_from_attr_or(Some("10:00:00-0700"), 0),
        Some(ZonedTime { second: 946746000, offset: -25200 })
    );
    assert_eq!(time_from_attr_or(None, 5), Some(ZonedTime { second: 5, offset: 0 }));
    assert_eq!(time_from_attr_or(Some("bad"), 5), Some(ZonedTime { second: 5, offset: 0 }));
}

#[test]
fn negative_year_is_written_with_its_sign() {
    let mut parser = parser_with(&[("docdate", "-0044-03-15")]);
    assert!(parser.provide_timestamps(0, None, None));
    assert_eq!(meta_str(&parser, "docyear"), Some("-44"));
}
