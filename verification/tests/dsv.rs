use asciidork_parser::attrs::DocAttrs;
use asciidork_parser::dsv::{note_implicit_header_row, CellTokens, DsvCell};
use asciidork_parser::parser::Parser;
use asciidork_parser::table::{DataFormat, DsvLastConsumed, HeaderRow, TableContext, TableTokens};
use asciidork_parser::token::{SourceLocation, Token, TokenKind};

use TokenKind::{Backslash, Colon, Comma, DoubleQuote, Newline, Whitespace, Word};

fn stream(spec: &[(TokenKind, &str)]) -> TableTokens {
    let mut pos: u32 = 0;
    let mut ts = Vec::new();
    for (kind, lexeme) in spec {
        let end = pos + lexeme.len() as u32;
        ts.push(Token::new(*kind, SourceLocation::new(pos, end), lexeme.to_string()));
        pos = end;
    }
    TableTokens::new(ts)
}

fn ctx(format: DataFormat) -> TableContext {
    let sep = format.separator();
    TableContext {
        delim_ch: b':',
        format,
        cell_separator: sep,
        embeddable_cell_separator: format.embeddable_separator(),
        cell_separator_tokenkind: format.separator_token_kind(),
        col_specs: vec![],
        num_cols: 0,
        counting_cols: true,
        header_row: HeaderRow::Unknown,
        header_reparse_cells: vec![],
        autowidths: false,
        phantom_cells: vec![],
        effective_row_idx: 0,
        dsv_last_consumed: DsvLastConsumed::Other,
    }
}

fn text(cell: &CellTokens) -> String {
    cell.tokens.iter().map(|t| t.lexeme.as_str()).collect()
}

fn read_all(parser: &mut Parser, tokens: &mut TableTokens, ctx: &mut TableContext) -> Vec<String> {
    let mut out = Vec::new();
    loop {
        match parser.parse_dsv_table_cell(tokens, ctx) {
            DsvCell::NoCell => return out,
            DsvCell::EmptyCell(_) => out.push(String::new()),
            DsvCell::Read(cell) => out.push(text(&cell)),
        }
    }
}

#[test]
fn dsv_cells_split_on_separator_and_newline() {
    let mut parser = Parser::new(DocAttrs::new());
    let mut c = ctx(DataFormat::Delimited(':'));
    let mut ts = stream(&[(Word, "one"), (Colon, ":"), (Word, "two"), (Newline, "\n"), (Word, "three")]);
    assert_eq!(read_all(&mut parser, &mut ts, &mut c), vec!["one", "two", "three"]);
    assert!(!c.counting_cols);
}

#[test]
fn dsv_escaped_separator_stays_in_cell() {
    let mut parser = Parser::new(DocAttrs::new());
    let mut c = ctx(DataFormat::Delimited(':'));
    let mut ts = stream(&[(Word, "a"), (Backslash, "\\"), (Colon, ":"), (Word, "b"), (Colon, ":"), (Word, "c")]);
    let cell = parser.finish_dsv_table_cell(&mut ts, &mut c, 0);
    assert_eq!(text(&cell), "a:b");
    assert_eq!((cell.start, cell.end), (0, 4));
    assert_eq!(c.dsv_last_consumed, DsvLastConsumed::Delimiter);
    assert_eq!(ts.0.tokens.len(), 1);
}

#[test]
fn dsv_separator_inside_word() {
    let mut parser = Parser::new(DocAttrs::new());
    let mut c = ctx(DataFormat::Delimited('¦'));
    let mut ts = stream(&[(Word, "a¦b¦c")]);
    assert_eq!(read_all(&mut parser, &mut ts, &mut c), vec!["a", "b", "c"]);
}

#[test]
fn dsv_delimiter_then_newline_is_empty_cell() {
    let mut parser = Parser::new(DocAttrs::new());
    let mut c = ctx(DataFormat::Delimited(':'));
    let mut ts = stream(&[(Word, "a"), (Colon, ":"), (Newline, "\n"), (Word, "b")]);
    assert_eq!(read_all(&mut parser, &mut ts, &mut c), vec!["a", "", "b"]);
}

#[test]
fn consume_delimiter_drops_embedded_separator() {
    let parser = Parser::new(DocAttrs::new());
    let mut c = ctx(DataFormat::Delimited('¦'));
    let mut ts = stream(&[(Word, "¦rest")]);
    assert!(parser.consume_dsv_delimiter(&mut ts, &mut c));
    assert_eq!(ts.0.tokens[0].lexeme, "rest");
    assert_eq!(ts.0.tokens[0].loc.start, 2);
    let mut ts = stream(&[(Word, "x")]);
    assert!(!parser.consume_dsv_delimiter(&mut ts, &mut c));
    assert_eq!(c.dsv_last_consumed, DsvLastConsumed::Other);
}

#[test]
fn csv_quoted_field_keeps_commas() {
    let mut parser = Parser::new(DocAttrs::new());
    let mut c = ctx(DataFormat::Csv(','));
    let mut ts = stream(&[
        (Word, "one"),
        (Comma, ","),
        (DoubleQuote, "\""),
        (Word, "two"),
        (Comma, ","),
        (Word, "three"),
        (DoubleQuote, "\""),
    ]);
    assert_eq!(read_all(&mut parser, &mut ts, &mut c), vec!["one", "two,three"]);
    assert!(parser.errors.is_empty());
}

#[test]
fn csv_doubled_quote_is_one_quote() {
    let mut parser = Parser::new(DocAttrs::new());
    let mut c = ctx(DataFormat::Csv(','));
    let mut ts = stream(&[
        (DoubleQuote, "\""),
        (Whitespace, " "),
        (Word, "a"),
        (DoubleQuote, "\""),
        (DoubleQuote, "\""),
        (Word, "b"),
        (DoubleQuote, "\""),
    ]);
    let cell = parser.finish_csv_table_cell(&mut ts, &mut c, 0);
    assert_eq!(text(&cell), "a\"b");
    assert_eq!(cell.start, 2);
    assert!(parser.errors.is_empty());
}

#[test]
fn csv_unclosed_quote_is_reported() {
    let mut parser = Parser::new(DocAttrs::new());
    let mut c = ctx(DataFormat::Csv(','));
    let mut ts = stream(&[(DoubleQuote, "\""), (Word, "a"), (Comma, ","), (Word, "b")]);
    let cell = parser.finish_csv_table_cell(&mut ts, &mut c, 0);
    assert_eq!(text(&cell), "a,b");
    assert_eq!(parser.errors, vec!["Unclosed CSV quote".to_string()]);
}

#[test]
fn csv_stray_quote_is_reported() {
    let mut parser = Parser::new(DocAttrs::new());
    let mut c = ctx(DataFormat::Csv(','));
    let mut ts = stream(&[(Word, "a"), (DoubleQuote, "\""), (Word, "b"), (Comma, ","), (Word, "c")]);
    let cell = parser.finish_csv_table_cell(&mut ts, &mut c, 0);
    assert_eq!(text(&cell), "ab");
    assert_eq!(
        parser.errors,
        vec!["Double quote not allowed here, entire field must be quoted".to_string()]
    );
}

#[test]
fn implicit_header_after_blank_line() {
    let mut c = ctx(DataFormat::Delimited(':'));
    c.dsv_last_consumed = DsvLastConsumed::Newline;
    let ts = stream(&[(Newline, "\n"), (Word, "x")]);
    note_implicit_header_row(&mut c, &ts, true);
    assert_eq!(c.header_row, HeaderRow::FoundImplicit);
    let mut c = ctx(DataFormat::Delimited(':'));
    note_implicit_header_row(&mut c, &ts, true);
    assert_eq!(c.header_row, HeaderRow::Unknown);
}
