use asciidork_parser::attrs::DocAttrs;
use asciidork_parser::parser::Parser;
use asciidork_parser::skip_endif::{closing_endif, SkippedLine};

#[test]
fn skips_to_first_endif() {
    let lines = vec![SkippedLine::Other, SkippedLine::Other, SkippedLine::Endif(true), SkippedLine::Other];
    assert_eq!(closing_endif(&lines), Some(2));
}

#[test]
fn nested_conditionals_are_counted() {
    let lines = vec![
        SkippedLine::Opening,
        SkippedLine::Other,
        SkippedLine::Endif(true),
        SkippedLine::Opening,
        SkippedLine::Opening,
        SkippedLine::Endif(true),
        SkippedLine::Endif(true),
        SkippedLine::Endif(true),
        SkippedLine::Other,
    ];
    assert_eq!(closing_endif(&lines), Some(7));
}

#[test]
fn malformed_endif_does_not_close() {
    let lines = vec![SkippedLine::Endif(false), SkippedLine::Other, SkippedLine::Endif(true)];
    assert_eq!(closing_endif(&lines), Some(2));
}

#[test]
fn unclosed_block_reports_error() {
    let mut parser = Parser::new(DocAttrs::new());
    let lines = vec![SkippedLine::Other, SkippedLine::Opening, SkippedLine::Endif(true)];
    assert_eq!(parser.skip_lines_until_endif(&lines), None);
    assert_eq!(parser.errors, vec!["This ifdef directive was never closed".to_string()]);
}

#[test]
fn closed_block_reports_nothing() {
    let mut parser = Parser::new(DocAttrs::new());
    assert_eq!(parser.skip_lines_until_endif(&[SkippedLine::Endif(true)]), Some(0));
    assert!(parser.errors.is_empty());
    assert_eq!(parser.skip_lines_until_endif(&[]), None);
    assert_eq!(parser.errors.len(), 1);
}
