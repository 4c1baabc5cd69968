use asciidork_parser::encoding::normalize_encoding;
use asciidork_parser::includes::{
    normalize_asciidoc, parse_line_ranges, select_line_ranges, set_indentation,
};

#[test]
fn normalize_includes_strips_utf8_bom() {
    let mut bytes = vec![0xEF, 0xBB, 0xBF, 0x68, 0x69];
    normalize_encoding(None, &mut bytes).unwrap();
    assert_eq!(bytes.as_slice(), b"hi");
}

#[test]
fn normalize_includes_converts_little_endian_utf16_to_utf8() {
    let mut bytes = vec![0xFF, 0xFE, 0x68, 0x00, 0x69, 0x00];
    normalize_encoding(None, &mut bytes).unwrap();
    assert_eq!(bytes.as_slice(), b"hi");
}

#[test]
fn normalize_includes_converts_big_endian_utf16_to_utf8() {
    let mut bytes = vec![0xFE, 0xFF, 0x00, 0x68, 0x00, 0x69];
    normalize_encoding(None, &mut bytes).unwrap();
    assert_eq!(bytes.as_slice(), b"hi");
}

#[test]
fn invalid_utf8_is_rejected() {
    let mut bytes = vec![0x68, 0xFF, 0x69];
    assert_eq!(normalize_encoding(None, &mut bytes), Err("Invalid UTF-8"));
}

#[test]
fn unpaired_surrogate_is_rejected() {
    let mut bytes = vec![0xFF, 0xFE, 0x00, 0xD8];
    assert_eq!(normalize_encoding(None, &mut bytes), Err("Invalid UTF-16 (LE)"));
    let mut bytes = vec![0xFE, 0xFF, 0xD8, 0x00];
    assert_eq!(normalize_encoding(None, &mut bytes), Err("Invalid UTF-16 (BE)"));
}

#[test]
fn utf16_by_attribute() {
    let mut bytes = vec![0x68, 0x00, 0x69];
    normalize_encoding(Some("utf-16"), &mut bytes).unwrap();
    assert_eq!(bytes.as_slice(), b"hi");
}

#[test]
fn test_parse_line_ranges() {
    assert_eq!(parse_line_ranges("1"), vec![1..2]);
    assert_eq!(parse_line_ranges("1;2"), vec![1..2, 2..3]);
    assert_eq!(parse_line_ranges("1 ; 2"), vec![1..2, 2..3]);
    assert_eq!(parse_line_ranges(" 1 ,  2  "), vec![1..2, 2..3]);
    assert_eq!(parse_line_ranges("1..3"), vec![1..4]);
    assert_eq!(parse_line_ranges("17..-1"), vec![17..usize::MAX]);
    assert_eq!(parse_line_ranges("17..-1,howdy"), vec![17..usize::MAX]);
    assert_eq!(parse_line_ranges("17.."), vec![17..usize::MAX]);
    assert_eq!(parse_line_ranges("1..3;5..7"), vec![1..4, 5..8]);
    assert_eq!(parse_line_ranges("1..3,5..7"), vec![1..4, 5..8]);
    assert_eq!(
        parse_line_ranges("1;3..4;6..-1"),
        vec![1..2, 3..5, 6..usize::MAX]
    );
    assert!(parse_line_ranges("17..15").is_empty());
    assert!(parse_line_ranges("hello").is_empty());
}

#[test]
fn test_indent_to_0() {
    let mut buf = b"  foo\n    bar\n  baz".to_vec();
    set_indentation(0, &mut buf);
    assert_eq!(std::str::from_utf8(&buf).unwrap(), "foo\n  bar\nbaz");
}

#[test]
fn test_indent_to_2() {
    let mut buf = b"foo\n  bar\nbaz".to_vec();
    set_indentation(2, &mut buf);
    assert_eq!(std::str::from_utf8(&buf).unwrap(), "  foo\n    bar\n  baz");
}

#[test]
fn normalize_asciidoc_trims_and_drops_cr() {
    let mut buf = b"a  \r\nb\t\r\nc \r".to_vec();
    normalize_asciidoc(".adoc", &mut buf);
    assert_eq!(buf.as_slice(), b"a\nb\nc \r");
    let mut buf = b"a  \r\nb".to_vec();
    normalize_asciidoc(".rb", &mut buf);
    assert_eq!(buf.as_slice(), b"a  \r\nb");
}

#[test]
fn select_line_ranges_marks_skipped_lines() {
    let mut buf = b"one\ntwo\nthree".to_vec();
    select_line_ranges("2", &mut buf);
    assert_eq!(
        std::str::from_utf8(&buf).unwrap(),
        "asciidorkinclude::[false]\ntwo\nasciidorkinclude::[false]\n"
    );
    let mut buf = b"one\ntwo".to_vec();
    select_line_ranges("nope", &mut buf);
    assert_eq!(buf.as_slice(), b"one\ntwo");
}
