use asciidork_parser::attrs::DocAttrs;
use asciidork_parser::parser::Parser;
use asciidork_parser::table::{DataFormat, DsvLastConsumed, HeaderRow, ParseCellData, TableContext, TableTokens};
use asciidork_parser::table_rows::{finish_cell, finish_implicit_header_row, finish_table, push_table_row, Table, TableCell};
use asciidork_parser::table_spec::{
    CellContentStyle, CellSpec, ColSpec, ColWidth, HorizontalAlignment, VerticalAlignment,
};
use asciidork_parser::token::{SourceLocation, Token, TokenKind};

/// Splits simple ASCII source into tokens the way the lexer does for the
/// characters these cases use.
fn lex(src: &str) -> Vec<Token> {
    let cs: Vec<(usize, char)> = src.char_indices().collect();
    let mut out = Vec::new();
    let mut i = 0;
    while i < cs.len() {
        let (start, c) = cs[i];
        let mut j = i + 1;
        let kind = if c.is_ascii_digit() {
            while j < cs.len() && cs[j].1.is_ascii_digit() {
                j += 1;
            }
            TokenKind::Digits
        } else if c.is_alphabetic() || !c.is_ascii() {
            while j < cs.len() && (cs[j].1.is_alphanumeric() || !cs[j].1.is_ascii()) {
                j += 1;
            }
            TokenKind::Word
        } else if c == ' ' {
            while j < cs.len() && cs[j].1 == ' ' {
                j += 1;
            }
            TokenKind::Whitespace
        } else if c == '.' {
            while j < cs.len() && cs[j].1 == '.' {
                j += 1;
            }
            TokenKind::Dots
        } else if c == '<' && j + 1 < cs.len() && (cs[j].1 == '.' || cs[j].1.is_ascii_digit()) && cs[j + 1].1 == '>' {
            j += 2;
            TokenKind::CalloutNumber
        } else {
            match c {
                '|' => TokenKind::Pipe,
                '*' => TokenKind::Star,
                '+' => TokenKind::Plus,
                '<' => TokenKind::LessThan,
                '>' => TokenKind::GreaterThan,
                '^' => TokenKind::Caret,
                ',' => TokenKind::Comma,
                ';' => TokenKind::SemiColon,
                ':' => TokenKind::Colon,
                '\n' => TokenKind::Newline,
                _ => TokenKind::Word,
            }
        };
        let end = if j < cs.len() { cs[j].0 } else { src.len() };
        out.push(Token::new(
            kind,
            SourceLocation::new(start as u32, end as u32),
            src[start..end].to_string(),
        ));
        i = j;
    }
    out
}

fn spec(
    duplication: Option<u8>,
    col_span: Option<u8>,
    row_span: Option<u8>,
    h_align: Option<HorizontalAlignment>,
    v_align: Option<VerticalAlignment>,
    style: Option<CellContentStyle>,
) -> CellSpec {
    CellSpec { duplication, col_span, row_span, h_align, v_align, style }
}

fn check_cell_specs() {
    let full = spec(
        Some(3),
        Some(2),
        Some(4),
        Some(HorizontalAlignment::Right),
        Some(VerticalAlignment::Middle),
        Some(CellContentStyle::Strong),
    );
    let cases: Vec<(char, &str, &str, Option<(CellSpec, u32)>)> = vec![
        ('|', "|foo", "foo", Some((CellSpec::default(), 1))),
        ('|', "foo", "foo", None),
        ('|', "m|foo", "foo", Some((spec(None, None, None, None, None, Some(CellContentStyle::Monospace)), 2))),
        ('|', "2+|3", "3", Some((spec(None, Some(2), None, None, None, None), 3))),
        ('|', "3*2.4+>.^s|foo", "foo", Some((full, 11))),
        ('x', "xfoo", "foo", Some((CellSpec::default(), 1))),
        ('x', "3*2.4+>.^sxfoo", "foo", Some((full, 11))),
        ('¦', "3*2.4+>.^s¦foo", "foo", Some((full, 12))),
        (
            '|',
            ".3+<.>m|foo",
            "foo",
            Some((
                spec(
                    None,
                    None,
                    Some(3),
                    Some(HorizontalAlignment::Left),
                    Some(VerticalAlignment::Bottom),
                    Some(CellContentStyle::Monospace),
                ),
                8,
            )),
        ),
    ];
    let parser = Parser::new(DocAttrs::new());
    for (sep, input, remaining, expected) in cases {
        let mut tokens = TableTokens::new(lex(input));
        let start = parser.consume_cell_start(&mut tokens, sep);
        assert_eq!(start, expected, "{input}");
        if let Some((_, loc)) = expected {
            assert_eq!(input.as_bytes().get(loc as usize), remaining.as_bytes().first());
            let rest: String = tokens.0.tokens.iter().map(|t| t.lexeme.as_str()).collect();
            assert_eq!(rest, remaining, "{input}");
        }
    }
}

#[test]
fn parse_table_test_parse_cell_specs() {
    check_cell_specs();
}

#[test]
fn parse_table_spec_test_parse_cell_specs() {
    check_cell_specs();
}

fn col(width: ColWidth, h: HorizontalAlignment, v: VerticalAlignment, style: CellContentStyle) -> ColSpec {
    ColSpec { width, h_align: h, v_align: v, style }
}

fn check_col_specs() {
    let d = ColSpec::default();
    let l = HorizontalAlignment::Left;
    let t = VerticalAlignment::Top;
    let s = CellContentStyle::Default;
    let cases: Vec<(&str, Vec<ColSpec>)> = vec![
        ("3*", vec![d, d, d]),
        ("1", vec![d]),
        ("2", vec![d, d]),
        ("3", vec![d, d, d]),
        ("~", vec![col(ColWidth::Auto, l, t, s)]),
        (">", vec![col(ColWidth::Proportional(1), HorizontalAlignment::Right, t, s)]),
        (".^", vec![col(ColWidth::Proportional(1), l, VerticalAlignment::Middle, s)]),
        (".>", vec![col(ColWidth::Proportional(1), l, VerticalAlignment::Bottom, s)]),
        ("l", vec![col(ColWidth::Proportional(1), l, t, CellContentStyle::Literal)]),
        ("1,2", vec![d, col(ColWidth::Proportional(2), l, t, s)]),
        ("1;2", vec![d, col(ColWidth::Proportional(2), l, t, s)]),
        (" 1,2  , 1 ", vec![d, col(ColWidth::Proportional(2), l, t, s), d]),
        ("", vec![]),
        (" ", vec![]),
        (
            "2*>.>3e,,15%",
            vec![
                col(ColWidth::Proportional(3), HorizontalAlignment::Right, VerticalAlignment::Bottom, CellContentStyle::Emphasis),
                col(ColWidth::Proportional(3), HorizontalAlignment::Right, VerticalAlignment::Bottom, CellContentStyle::Emphasis),
                d,
                col(ColWidth::Percentage(15), l, t, s),
            ],
        ),
    ];
    let parser = Parser::new(DocAttrs::new());
    for (input, expected) in cases {
        assert_eq!(parser.parse_col_specs(input), expected, "{input}");
    }
}

#[test]
fn parse_table_test_parse_col_specs() {
    check_col_specs();
}

#[test]
fn parse_table_spec_test_parse_col_specs() {
    check_col_specs();
}

#[test]
fn col_spec_defaults() {
    let d = ColSpec::default();
    assert_eq!(d.width, ColWidth::Proportional(1));
    assert_eq!(d.h_align, HorizontalAlignment::Left);
    assert_eq!(d.v_align, VerticalAlignment::Top);
    assert_eq!(d.style, CellContentStyle::Default);
}

#[test]
fn col_spec_oversized_numbers_fall_back() {
    let parser = Parser::new(DocAttrs::new());
    assert_eq!(parser.parse_col_specs("300")[0..1], [ColSpec::default()]);
    assert_eq!(parser.parse_col_specs("300%")[0].width, ColWidth::Percentage(1));
    assert_eq!(parser.parse_col_specs("0").len(), 0);
}

fn sorted(mut v: Vec<(usize, usize)>) -> Vec<(usize, usize)> {
    v.sort();
    v
}

#[test]
fn test_table_context() {
    let mut ctx = TableContext {
        delim_ch: b'|',
        format: DataFormat::Prefix('|'),
        cell_separator: '|',
        embeddable_cell_separator: None,
        cell_separator_tokenkind: Some(TokenKind::Pipe),
        col_specs: vec![],
        num_cols: 3,
        counting_cols: false,
        header_row: HeaderRow::Unknown,
        header_reparse_cells: vec![],
        autowidths: false,
        phantom_cells: vec![],
        effective_row_idx: 0,
        dsv_last_consumed: DsvLastConsumed::Other,
    };
    assert_eq!(ctx.effective_row_cols(), 3);

    ctx.add_phantom_cells(2, 2, 1);
    assert_eq!(sorted(ctx.phantom_cells.clone()), vec![(0, 2), (1, 1), (1, 2)]);
    assert_eq!(ctx.effective_row_cols(), 2);

    ctx.effective_row_idx = 1;
    assert_eq!(ctx.effective_row_cols(), 1);

    ctx.num_cols = 2;
    ctx.phantom_cells.clear();
    ctx.effective_row_idx = 0;
    ctx.add_phantom_cells(2, 1, 1);
    ctx.effective_row_idx = 1;
    assert_eq!(ctx.effective_row_cols(), 1);

    ctx.num_cols = 4;
    ctx.phantom_cells.clear();
    ctx.effective_row_idx = 1;
    ctx.add_phantom_cells(3, 1, 3);
    assert_eq!(sorted(ctx.phantom_cells.clone()), vec![(2, 3), (3, 3)]);
}

#[test]
fn phantom_cells_are_not_repeated() {
    let mut ctx = TableContext {
        delim_ch: b'|',
        format: DataFormat::Prefix('|'),
        cell_separator: '|',
        embeddable_cell_separator: None,
        cell_separator_tokenkind: Some(TokenKind::Pipe),
        col_specs: vec![],
        num_cols: 4,
        counting_cols: false,
        header_row: HeaderRow::Unknown,
        header_reparse_cells: vec![],
        autowidths: false,
        phantom_cells: vec![],
        effective_row_idx: 0,
        dsv_last_consumed: DsvLastConsumed::Other,
    };
    ctx.add_phantom_cells(2, 1, 0);
    ctx.add_phantom_cells(2, 1, 0);
    assert_eq!(ctx.phantom_cells, vec![(1, 0)]);
    assert_eq!(ctx.row_phantom_cells(), 0);
    ctx.add_phantom_cells(0, 0, 2);
    assert_eq!(ctx.phantom_cells.len(), 1);
}

#[test]
fn data_format_separators() {
    let mut f = DataFormat::Csv(',');
    assert_eq!(f.separator(), ',');
    assert_eq!(f.embeddable_separator(), None);
    assert_eq!(f.separator_token_kind(), Some(TokenKind::Comma));
    f.replace_separator('x');
    assert_eq!(f, DataFormat::Csv('x'));
    assert_eq!(f.sep(), 'x');
    assert_eq!(f.embeddable_separator(), Some('x'));
    assert_eq!(f.separator_token_kind(), None);
    assert!(HeaderRow::ExplicitlySet.known_to_exist());
    assert!(!HeaderRow::FoundNone.known_to_exist());
    assert!(HeaderRow::Unknown.is_unknown());
}

#[test]
fn consume_splitting_cuts_at_embedded_separator() {
    let mut tokens = TableTokens::new(lex("abxcd ef"));
    let first = tokens.consume_splitting(Some('x')).unwrap();
    assert_eq!(first.lexeme, "ab");
    assert_eq!(first.loc, SourceLocation::new(0, 2));
    let cur = tokens.current().unwrap();
    assert_eq!(cur.lexeme, "xcd");
    assert_eq!(cur.loc.start, 2);
    let next = tokens.consume_splitting(None).unwrap();
    assert_eq!(next.lexeme, "xcd");
}

#[test]
fn table_context_takes_format_from_delimiter_and_attributes() {
    let mut parser = Parser::new(DocAttrs::new());
    let ctx = parser.table_context(b',', Vec::new(), None, None, false, false, false, 3);
    assert_eq!(ctx.format, DataFormat::Csv(','));
    assert_eq!(ctx.cell_separator, ',');
    assert_eq!(ctx.cell_separator_tokenkind, Some(TokenKind::Comma));
    assert!(ctx.counting_cols);
    assert_eq!(ctx.header_row, HeaderRow::FoundNone);
    assert_eq!(ctx.dsv_last_consumed, DsvLastConsumed::Other);

    let ctx = parser.table_context(b'|', Vec::new(), Some("dsv"), None, false, false, true, 1);
    assert_eq!(ctx.format, DataFormat::Delimited(':'));
    assert_eq!(ctx.header_row, HeaderRow::Unknown);
    assert!(ctx.autowidths);

    let ctx = parser.table_context(b'!', Vec::new(), None, Some(";"), true, false, false, 1);
    assert_eq!(ctx.format, DataFormat::Prefix(';'));
    assert_eq!(ctx.cell_separator_tokenkind, Some(TokenKind::SemiColon));
    assert_eq!(ctx.header_row, HeaderRow::ExplicitlySet);

    let ctx = parser.table_context(b'|', Vec::new(), Some("tsv"), None, false, true, false, 1);
    assert_eq!(ctx.format, DataFormat::Csv('\t'));
    assert_eq!(ctx.embeddable_cell_separator, Some('\t'));
    assert_eq!(ctx.header_row, HeaderRow::ExplicitlyUnset);
    assert!(parser.errors.is_empty());
}

#[test]
fn table_context_reports_a_separator_of_other_length() {
    let mut parser = Parser::new(DocAttrs::new());
    let ctx = parser.table_context(b'|', Vec::new(), None, Some("::"), false, false, false, 1);
    assert_eq!(ctx.format, DataFormat::Prefix(':'));
    assert_eq!(parser.errors, vec!["Cell separator must be exactly one character".to_string()]);
    let ctx = parser.table_context(b'|', Vec::new(), None, Some(""), false, false, false, 1);
    assert_eq!(ctx.format, DataFormat::Prefix('|'));
    assert_eq!(parser.errors.len(), 2);
}

fn no_spec() -> CellSpec {
    CellSpec { duplication: None, col_span: None, row_span: None, h_align: None, v_align: None, style: None }
}

fn tcell(style: CellContentStyle, text: &str) -> TableCell {
    TableCell { spec: no_spec(), col_spec: None, style, tokens: lex(text) }
}

fn empty_table() -> Table {
    Table { col_widths: vec![], header_row: None, rows: vec![], footer_row: None }
}

#[test]
fn implicit_header_row_is_reparsed_and_footer_split_off() {
    let mut parser = Parser::new(DocAttrs::new());
    let mut ctx = parser.table_context(b'|', Vec::new(), None, None, false, false, false, 1);
    ctx.num_cols = 2;
    ctx.header_row = HeaderRow::FoundImplicit;
    ctx.header_reparse_cells.push(ParseCellData {
        cell_tokens: lex(" raw  "),
        loc: SourceLocation::new(0, 6),
        cell_spec: no_spec(),
        col_spec: None,
    });
    let mut table = empty_table();
    let first = vec![tcell(CellContentStyle::Strong, "a"), tcell(CellContentStyle::Literal, "raw")];
    finish_implicit_header_row(first, &mut ctx, &mut table);
    assert_eq!(table.col_widths, vec![ColWidth::Proportional(1), ColWidth::Proportional(1)]);
    assert_eq!(ctx.effective_row_idx, 1);
    let header = table.header_row.as_ref().unwrap();
    assert!(header.iter().all(|c| c.style == CellContentStyle::Default));
    assert_eq!(header[1].tokens.len(), 3); // the kept, untrimmed tokens
    assert!(ctx.header_reparse_cells.is_empty());
    push_table_row(vec![tcell(CellContentStyle::Strong, "b")], &mut ctx, &mut table);
    push_table_row(vec![tcell(CellContentStyle::Default, "c")], &mut ctx, &mut table);
    assert_eq!(table.rows.len(), 2);
    assert_eq!(table.rows[0][0].style, CellContentStyle::Strong);
    finish_table(&mut table, true);
    assert_eq!(table.rows.len(), 1);
    assert_eq!(table.footer_row.as_ref().unwrap()[0].tokens[0].lexeme, "c");
}

#[test]
fn rows_without_known_header_settle_on_none() {
    let mut parser = Parser::new(DocAttrs::new());
    let mut ctx = parser.table_context(b'|', Vec::new(), None, None, false, false, true, 1);
    ctx.num_cols = 1;
    assert_eq!(ctx.header_row, HeaderRow::Unknown);
    let mut table = empty_table();
    finish_implicit_header_row(vec![tcell(CellContentStyle::Default, "x")], &mut ctx, &mut table);
    assert_eq!(table.col_widths, vec![ColWidth::Auto]);
    assert!(table.header_row.is_none());
    assert_eq!(table.rows.len(), 1);
    assert_eq!(ctx.header_row, HeaderRow::FoundNone);
    finish_table(&mut table, false);
    assert!(table.footer_row.is_none());
}

#[test]
fn finish_cell_trims_and_detects_implicit_header() {
    let mut parser = Parser::new(DocAttrs::new());
    let mut ctx = parser.table_context(b'|', Vec::new(), None, None, false, false, false, 1);
    assert_eq!(ctx.header_row, HeaderRow::Unknown);
    let mut lit = no_spec();
    lit.style = Some(CellContentStyle::Literal);
    lit.duplication = Some(2);
    let (cell, repeat) = finish_cell(lit, lex("ab\n\n"), 0, &mut ctx, false, SourceLocation::new(1, 6));
    assert_eq!(repeat, 2);
    assert_eq!(cell.style, CellContentStyle::Literal);
    assert_eq!(cell.tokens.len(), 1);
    assert_eq!(ctx.header_row, HeaderRow::FoundImplicit);
    assert_eq!(ctx.header_reparse_cells.len(), 1);
    assert_eq!(ctx.header_reparse_cells[0].loc, SourceLocation::new(1, 2));

    // the header row is known to exist and not read yet: no content style
    let (cell, repeat) = finish_cell(lit, lex("cd\n"), 1, &mut ctx, false, SourceLocation::new(7, 10));
    assert_eq!((cell.style, repeat), (CellContentStyle::Default, 2));
    assert_eq!(ctx.header_reparse_cells.len(), 1);

    // a later cell takes its column's style
    let mut cols = parser.parse_col_specs("2,m");
    let mut ctx = parser.table_context(b',', std::mem::take(&mut cols), None, None, false, false, false, 3);
    let (cell, repeat) = finish_cell(no_spec(), lex("x\n\n"), 1, &mut ctx, true, SourceLocation::new(0, 3));
    assert_eq!((cell.style, repeat), (CellContentStyle::Monospace, 1));
    assert_eq!(ctx.header_row, HeaderRow::FoundNone);
}
