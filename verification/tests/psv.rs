use asciidork_parser::attrs::DocAttrs;
use asciidork_parser::dsv::CellTokens;
use asciidork_parser::parser::Parser;
use asciidork_parser::table::{DataFormat, DsvLastConsumed, HeaderRow, TableContext, TableTokens};
use asciidork_parser::table_spec::CellSpec;
use asciidork_parser::token::{SourceLocation, Token, TokenKind};

use TokenKind::{Backslash, Digits, Newline, Pipe, Plus, Whitespace, Word};

fn stream(spec: &[(TokenKind, &str)]) -> TableTokens {
    let mut pos: u32 = 0;
    let mut ts = Vec::new();
    for (kind, lexeme) in spec {
        let end = pos + lexeme.len() as u32;
        ts.push(Token::new(*kind, SourceLocation::new(pos, end), lexeme.to_string()));
        pos = end;
    }
    TableTokens::new(ts)
}

fn ctx(num_cols: usize, counting: bool) -> TableContext {
    let format = DataFormat::Prefix('|');
    TableContext {
        delim_ch: b'|',
        format,
        cell_separator: '|',
        embeddable_cell_separator: format.embeddable_separator(),
        cell_separator_tokenkind: format.separator_token_kind(),
        col_specs: vec![],
        num_cols,
        counting_cols: counting,
        header_row: HeaderRow::Unknown,
        header_reparse_cells: vec![],
        autowidths: false,
        phantom_cells: vec![],
        effective_row_idx: 0,
        dsv_last_consumed: DsvLastConsumed::Other,
    }
}

fn text(cell: &CellTokens) -> String {
    cell.tokens.iter().map(|t| t.lexeme.as_str()).collect()
}

#[test]
fn psv_cells_in_a_row() {
    let mut parser = Parser::new(DocAttrs::new());
    let mut c = ctx(0, true);
    let mut ts = stream(&[(Pipe, "|"), (Word, "one"), (Pipe, "|"), (Word, "two"), (Newline, "\n")]);
    let (spec, cell) = parser.parse_psv_table_cell(&mut ts, &mut c).unwrap();
    assert_eq!(spec, CellSpec::default());
    assert_eq!(text(&cell), "one");
    assert_eq!((cell.start, cell.end), (1, 4));
    let (_, cell) = parser.parse_psv_table_cell(&mut ts, &mut c).unwrap();
    assert_eq!(text(&cell), "two\n");
    assert!(!c.counting_cols);
    assert!(parser.parse_psv_table_cell(&mut ts, &mut c).is_none());
    assert!(parser.errors.is_empty());
}

#[test]
fn psv_cell_spec_is_read() {
    let mut parser = Parser::new(DocAttrs::new());
    let mut c = ctx(0, true);
    let mut ts = stream(&[(Digits, "2"), (Plus, "+"), (Pipe, "|"), (Whitespace, " "), (Word, "wide")]);
    let (spec, cell) = parser.parse_psv_table_cell(&mut ts, &mut c).unwrap();
    assert_eq!(spec.col_span, Some(2));
    assert_eq!(text(&cell), "wide");
    assert_eq!(cell.start, 4);
}

#[test]
fn psv_escaped_separator_stays_in_cell() {
    let mut parser = Parser::new(DocAttrs::new());
    let mut c = ctx(0, true);
    let mut ts = stream(&[(Pipe, "|"), (Word, "a"), (Backslash, "\\"), (Pipe, "|"), (Word, "b")]);
    let (_, cell) = parser.parse_psv_table_cell(&mut ts, &mut c).unwrap();
    assert_eq!(text(&cell), "a|b");
    assert!(ts.is_empty());
}

#[test]
fn psv_missing_first_separator_is_reported() {
    let mut parser = Parser::new(DocAttrs::new());
    let mut c = ctx(0, true);
    let mut ts = stream(&[(Word, "x"), (Pipe, "|"), (Word, "y")]);
    let (spec, cell) = parser.parse_psv_table_cell(&mut ts, &mut c).unwrap();
    assert_eq!(spec, CellSpec::default());
    assert_eq!(text(&cell), "x");
    assert_eq!(parser.errors, vec!["Expected cell separator `|`".to_string()]);
    let (_, cell) = parser.parse_psv_table_cell(&mut ts, &mut c).unwrap();
    assert_eq!(text(&cell), "y");
}

#[test]
fn psv_too_wide_cell_is_dropped() {
    let mut parser = Parser::new(DocAttrs::new());
    let mut c = ctx(1, false);
    let mut ts = stream(&[(Digits, "3"), (Plus, "+"), (Pipe, "|"), (Word, "a"), (Pipe, "|"), (Word, "b")]);
    let (spec, cell) = parser.parse_psv_table_cell(&mut ts, &mut c).unwrap();
    assert_eq!(spec.col_span, None);
    assert_eq!(text(&cell), "b");
    assert_eq!(parser.errors, vec!["Cell column span (3) exceeds number of columns (1)".to_string()]);
}
