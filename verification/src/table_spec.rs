//! Table cell and column specifiers: the prefix a cell of a prefix-separated
//! table may carry (`3*2.4+>.^s|`), and the `cols` attribute
//! (`2*>.>3e,,15%`).
use vstd::prelude::*;

use crate::line::{byte_len, TokenSpec};
use crate::parser::Parser;
use crate::table::TableTokens;
use crate::token::{char_len_utf8, SourceLocation, TokenKind};

verus! {

/// A token as the specifications see it: kind, location and text.
pub type TokenView = (TokenKind, SourceLocation, Seq<char>);

#[derive(Debug, Clone, Copy, PartialEq, Eq, Structural)]
pub enum HorizontalAlignment {
    Left,
    Center,
    Right,
}

#[derive(Debug, Clone, Copy, PartialEq, Eq, Structural)]
pub enum VerticalAlignment {
    Top,
    Middle,
    Bottom,
}

/// How a cell's content is rendered.
#[derive(Debug, Clone, Copy, PartialEq, Eq, Structural)]
pub enum CellContentStyle {
    AsciiDoc,
    Default,
    Emphasis,
    Header,
    Literal,
    Monospace,
    Strong,
}

/// The width of a column.
#[derive(Debug, Clone, Copy, PartialEq, Eq, Structural)]
pub enum ColWidth {
    Proportional(u8),
    Percentage(u8),
    Auto,
}

/// The specifier of a column from the `cols` attribute.
#[derive(Debug, Clone, Copy, PartialEq, Eq, Structural)]
pub struct ColSpec {
    pub width: ColWidth,
    pub h_align: HorizontalAlignment,
    pub v_align: VerticalAlignment,
    pub style: CellContentStyle,
}

/// The specifier a cell carries in front of its separator; each part is
/// absent unless written.
#[derive(Debug, Clone, Copy, PartialEq, Eq, Structural)]
pub struct CellSpec {
    pub duplication: Option<u8>,
    pub col_span: Option<u8>,
    pub row_span: Option<u8>,
    pub h_align: Option<HorizontalAlignment>,
    pub v_align: Option<VerticalAlignment>,
    pub style: Option<CellContentStyle>,
}

/// A column of proportional width 1, left and top aligned, default style.
pub open spec fn default_col_spec() -> ColSpec {
    ColSpec {
        width: ColWidth::Proportional(1),
        h_align: HorizontalAlignment::Left,
        v_align: VerticalAlignment::Top,
        style: CellContentStyle::Default,
    }
}

/// A cell specifier with nothing written.
pub open spec fn empty_cell_spec() -> CellSpec {
    CellSpec { duplication: None, col_span: None, row_span: None, h_align: None, v_align: None, style: None }
}

impl Default for ColSpec {
    fn default() -> (s: ColSpec)
        ensures
            s == default_col_spec(),
    {
        ColSpec {
            width: ColWidth::Proportional(1),
            h_align: HorizontalAlignment::Left,
            v_align: VerticalAlignment::Top,
            style: CellContentStyle::Default,
        }
    }
}

impl Default for CellSpec {
    fn default() -> (s: CellSpec)
        ensures
            s == empty_cell_spec(),
    {
        CellSpec { duplication: None, col_span: None, row_span: None, h_align: None, v_align: None, style: None }
    }
}

/// The content style a letter names: `a`, `d`, `e`, `h`, `l`, `m` or `s`.
pub open spec fn style_of_char(c: char) -> Option<CellContentStyle> {
    if c == 'a' {
        Some(CellContentStyle::AsciiDoc)
    } else if c == 'd' {
        Some(CellContentStyle::Default)
    } else if c == 'e' {
        Some(CellContentStyle::Emphasis)
    } else if c == 'h' {
        Some(CellContentStyle::Header)
    } else if c == 'l' {
        Some(CellContentStyle::Literal)
    } else if c == 'm' {
        Some(CellContentStyle::Monospace)
    } else if c == 's' {
        Some(CellContentStyle::Strong)
    } else {
        None
    }
}

/// The content style a letter names.
pub fn style_from_char(c: char) -> (r: Option<CellContentStyle>)
    ensures
        r == style_of_char(c),
{
    if c == 'a' {
        Some(CellContentStyle::AsciiDoc)
    } else if c == 'd' {
        Some(CellContentStyle::Default)
    } else if c == 'e' {
        Some(CellContentStyle::Emphasis)
    } else if c == 'h' {
        Some(CellContentStyle::Header)
    } else if c == 'l' {
        Some(CellContentStyle::Literal)
    } else if c == 'm' {
        Some(CellContentStyle::Monospace)
    } else if c == 's' {
        Some(CellContentStyle::Strong)
    } else {
        None
    }
}

/// A token text read as a `u8`, as std's `u8::from_str` reads it.
pub open spec fn u8_of(s: Seq<char>) -> Option<u8> {
    match crate::text::unsigned_decimal(s) {
        Some(v) => if v <= u8::MAX {
            Some(v as u8)
        } else {
            None
        },
        None => None,
    }
}

fn parse_u8_token(s: &String) -> (r: Option<u8>)
    ensures
        r == u8_of(s@),
{
    let cs = crate::text::chars_of(s.as_str());
    crate::text::parse_u8(cs.as_slice())
}

/// A duplication factor `N*` at the cursor.
pub open spec fn dup_step(t: Seq<TokenView>, s: CellSpec, c: int) -> (CellSpec, int) {
    if crate::line::seq_at(t, seq![TokenSpec::Kind(TokenKind::Digits), TokenSpec::Kind(TokenKind::Star)], c)
        && u8_of(t[c].2) is Some {
        (CellSpec { duplication: u8_of(t[c].2), ..s }, c + 2)
    } else {
        (s, c)
    }
}

/// Whether the token is a single dot.
pub open spec fn is_single_dot(tok: TokenView) -> bool {
    tok.0 == TokenKind::Dots && byte_len(tok.2) == 1
}

/// A span factor `N+` (columns), `.N+` (rows) or `N.M+` (both) at the
/// cursor.
pub open spec fn span_step(t: Seq<TokenView>, s: CellSpec, c: int) -> (CellSpec, int) {
    if crate::line::seq_at(t, seq![TokenSpec::Kind(TokenKind::Digits), TokenSpec::Kind(TokenKind::Plus)], c) {
        if u8_of(t[c].2) is Some {
            (CellSpec { col_span: u8_of(t[c].2), ..s }, c + 2)
        } else {
            (s, c)
        }
    } else if crate::line::seq_at(
        t,
        seq![TokenSpec::Kind(TokenKind::Dots), TokenSpec::Kind(TokenKind::Digits), TokenSpec::Kind(TokenKind::Plus)],
        c,
    ) {
        if is_single_dot(t[c]) && u8_of(t[c + 1].2) is Some {
            (CellSpec { row_span: u8_of(t[c + 1].2), ..s }, c + 3)
        } else {
            (s, c)
        }
    } else if crate::line::seq_at(
        t,
        seq![
            TokenSpec::Kind(TokenKind::Digits),
            TokenSpec::Kind(TokenKind::Dots),
            TokenSpec::Kind(TokenKind::Digits),
            TokenSpec::Kind(TokenKind::Plus),
        ],
        c,
    ) {
        if is_single_dot(t[c + 1]) && u8_of(t[c].2) is Some && u8_of(t[c + 2].2) is Some {
            (CellSpec { col_span: u8_of(t[c].2), row_span: u8_of(t[c + 2].2), ..s }, c + 4)
        } else {
            (s, c)
        }
    } else {
        (s, c)
    }
}

/// A horizontal alignment `<`, `^` or `>` at the cursor; the callout-like
/// token `<.>` aligns left and bottom at once.
pub open spec fn h_align_step(t: Seq<TokenView>, s: CellSpec, c: int) -> (CellSpec, int) {
    if 0 <= c < t.len() {
        let tok = t[c];
        if tok.0 == TokenKind::LessThan {
            (CellSpec { h_align: Some(HorizontalAlignment::Left), ..s }, c + 1)
        } else if tok.0 == TokenKind::GreaterThan {
            (CellSpec { h_align: Some(HorizontalAlignment::Right), ..s }, c + 1)
        } else if tok.0 == TokenKind::Caret {
            (CellSpec { h_align: Some(HorizontalAlignment::Center), ..s }, c + 1)
        } else if tok.0 == TokenKind::CalloutNumber && tok.2 == seq!['<', '.', '>'] {
            (
                CellSpec {
                    h_align: Some(HorizontalAlignment::Left),
                    v_align: Some(VerticalAlignment::Bottom),
                    ..s
                },
                c + 1,
            )
        } else {
            (s, c)
        }
    } else {
        (s, c)
    }
}

/// A vertical alignment `.<`, `.^` or `.>` at the cursor.
pub open spec fn v_align_step(t: Seq<TokenView>, s: CellSpec, c: int) -> (CellSpec, int) {
    if 0 <= c && c + 1 < t.len() && is_single_dot(t[c]) {
        let k = t[c + 1].0;
        if k == TokenKind::GreaterThan {
            (CellSpec { v_align: Some(VerticalAlignment::Bottom), ..s }, c + 2)
        } else if k == TokenKind::LessThan {
            (CellSpec { v_align: Some(VerticalAlignment::Top), ..s }, c + 2)
        } else if k == TokenKind::Caret {
            (CellSpec { v_align: Some(VerticalAlignment::Middle), ..s }, c + 2)
        } else {
            (s, c)
        }
    } else {
        (s, c)
    }
}

/// A style letter at the cursor. A word of one letter is consumed; a longer
/// word starting with a style letter (a custom separator glued to it) sets
/// the style and is reported as such (the flag), the cursor staying on it.
pub open spec fn style_step(t: Seq<TokenView>, s: CellSpec, c: int) -> (CellSpec, int, bool) {
    if 0 <= c < t.len() && t[c].0 == TokenKind::Word && t[c].2.len() > 0 && style_of_char(t[c].2[0]) is Some {
        let s2 = CellSpec { style: style_of_char(t[c].2[0]), ..s };
        if byte_len(t[c].2) == 1 {
            (s2, c + 1, false)
        } else {
            (s2, c, true)
        }
    } else {
        (s, c, false)
    }
}

/// Whether the token is a single dot.
fn single_dot(tok: Option<&crate::token::Token>) -> (r: bool)
    ensures
        r == (tok matches Some(t) && is_single_dot(crate::line::token_view(*t))),
{
    match tok {
        Some(t) => t.kind == TokenKind::Dots && t.len() == 1,
        None => false,
    }
}

fn parse_duplication_factor(tokens: &TableTokens, spec: &mut CellSpec, cursor: &mut u32)
    requires
        *old(cursor) + 2 <= u32::MAX,
    ensures
        (*final(spec), *final(cursor) as int) == dup_step(tokens@, *old(spec), *old(cursor) as int),
{
    let pat = [TokenSpec::Kind(TokenKind::Digits), TokenSpec::Kind(TokenKind::Star)];
    assert(pat@ =~= seq![TokenSpec::Kind(TokenKind::Digits), TokenSpec::Kind(TokenKind::Star)]);
    if tokens.has_seq_at(pat.as_slice(), *cursor) {
        if let Some(t) = tokens.nth(*cursor as usize) {
            if let Some(digits) = parse_u8_token(&t.lexeme) {
                spec.duplication = Some(digits);
                *cursor = *cursor + 2;
            }
        }
    }
}

fn parse_span_factor(tokens: &TableTokens, spec: &mut CellSpec, cursor: &mut u32)
    requires
        *old(cursor) + 4 <= u32::MAX,
    ensures
        (*final(spec), *final(cursor) as int) == span_step(tokens@, *old(spec), *old(cursor) as int),
{
    let c = *cursor as usize;
    let two = [TokenSpec::Kind(TokenKind::Digits), TokenSpec::Kind(TokenKind::Plus)];
    let three = [TokenSpec::Kind(TokenKind::Dots), TokenSpec::Kind(TokenKind::Digits), TokenSpec::Kind(TokenKind::Plus)];
    let four = [
        TokenSpec::Kind(TokenKind::Digits),
        TokenSpec::Kind(TokenKind::Dots),
        TokenSpec::Kind(TokenKind::Digits),
        TokenSpec::Kind(TokenKind::Plus),
    ];
    assert(two@ =~= seq![TokenSpec::Kind(TokenKind::Digits), TokenSpec::Kind(TokenKind::Plus)]);
    assert(three@ =~= seq![TokenSpec::Kind(TokenKind::Dots), TokenSpec::Kind(TokenKind::Digits), TokenSpec::Kind(TokenKind::Plus)]);
    assert(four@ =~= seq![
        TokenSpec::Kind(TokenKind::Digits),
        TokenSpec::Kind(TokenKind::Dots),
        TokenSpec::Kind(TokenKind::Digits),
        TokenSpec::Kind(TokenKind::Plus),
    ]);
    if tokens.has_seq_at(two.as_slice(), *cursor) {
        if let Some(t) = tokens.nth(c) {
            if let Some(digits) = parse_u8_token(&t.lexeme) {
                spec.col_span = Some(digits);
                *cursor = *cursor + 2;
            }
        }
    } else if tokens.has_seq_at(three.as_slice(), *cursor) {
        if !single_dot(tokens.nth(c)) {
            return;
        }
        if let Some(t) = tokens.nth(c + 1) {
            if let Some(digits) = parse_u8_token(&t.lexeme) {
                spec.row_span = Some(digits);
                *cursor = *cursor + 3;
            }
        }
    } else if tokens.has_seq_at(four.as_slice(), *cursor) {
        if !single_dot(tokens.nth(c + 1)) {
            return;
        }
        let col = match tokens.nth(c) {
            Some(t) => parse_u8_token(&t.lexeme),
            None => None,
        };
        let row = match tokens.nth(c + 2) {
            Some(t) => parse_u8_token(&t.lexeme),
            None => None,
        };
        if let (Some(col), Some(row)) = (col, row) {
            spec.col_span = Some(col);
            spec.row_span = Some(row);
            *cursor = *cursor + 4;
        }
    }
}

fn parse_h_align(tokens: &TableTokens, spec: &mut CellSpec, cursor: &mut u32)
    requires
        *old(cursor) + 1 <= u32::MAX,
    ensures
        (*final(spec), *final(cursor) as int) == h_align_step(tokens@, *old(spec), *old(cursor) as int),
{
    let token = match tokens.nth(*cursor as usize) {
        Some(t) => t,
        None => return,
    };
    match token.kind {
        TokenKind::LessThan => spec.h_align = Some(HorizontalAlignment::Left),
        TokenKind::GreaterThan => spec.h_align = Some(HorizontalAlignment::Right),
        TokenKind::Caret => spec.h_align = Some(HorizontalAlignment::Center),
        TokenKind::CalloutNumber => {
            let cs = token.chars();
            if cs.len() == 3 && cs[0] == '<' && cs[1] == '.' && cs[2] == '>' {
                assert(token.lexeme@ =~= seq!['<', '.', '>']);
                spec.h_align = Some(HorizontalAlignment::Left);
                spec.v_align = Some(VerticalAlignment::Bottom);
            } else {
                assert(token.lexeme@ != seq!['<', '.', '>']);
                return;
            }
        },
        _ => return,
    }
    *cursor = *cursor + 1;
}

fn parse_v_align(tokens: &TableTokens, spec: &mut CellSpec, cursor: &mut u32)
    requires
        *old(cursor) + 2 <= u32::MAX,
    ensures
        (*final(spec), *final(cursor) as int) == v_align_step(tokens@, *old(spec), *old(cursor) as int),
{
    let c = *cursor as usize;
    if !single_dot(tokens.nth(c)) {
        return;
    }
    match tokens.nth(c + 1) {
        Some(t) => match t.kind {
            TokenKind::GreaterThan => spec.v_align = Some(VerticalAlignment::Bottom),
            TokenKind::LessThan => spec.v_align = Some(VerticalAlignment::Top),
            TokenKind::Caret => spec.v_align = Some(VerticalAlignment::Middle),
            _ => return,
        },
        None => return,
    }
    *cursor = *cursor + 2;
}

/// Returns whether the style letter was found inside a longer word.
fn parse_style(tokens: &TableTokens, spec: &mut CellSpec, cursor: &mut u32) -> (r: bool)
    requires
        *old(cursor) + 1 <= u32::MAX,
    ensures
        (*final(spec), *final(cursor) as int, r) == style_step(tokens@, *old(spec), *old(cursor) as int),
{
    let token = match tokens.nth(*cursor as usize) {
        Some(t) => t,
        None => return false,
    };
    if token.kind != TokenKind::Word {
        return false;
    }
    let cs = token.chars();
    if cs.len() == 0 {
        return false;
    }
    let style = match style_from_char(cs[0]) {
        Some(st) => st,
        None => return false,
    };
    spec.style = Some(style);
    if token.len() == 1 {
        *cursor = *cursor + 1;
        false
    } else {
        true
    }
}

/// Where a cell starts: its specifier, how many tokens and then how many
/// bytes of the next token to drop, and the source offset its content
/// resumes at.
#[derive(Debug, Clone, Copy, PartialEq, Eq, Structural)]
pub struct CellStart {
    pub spec: CellSpec,
    pub drop_tokens: u32,
    pub drop_bytes: u32,
    pub resuming: u32,
}

/// The UTF-8 length of a separator.
pub open spec fn sep_len(sep: char) -> nat {
    vstd::utf8::encode_scalar(sep as u32).len()
}

/// Whether a token can begin a cell specifier: a word starting with one of
/// `a d e h l m s v`, or digits, dots, `<`, `>`, `^` or a callout-like
/// token.
pub open spec fn may_open_spec(tok: TokenView) -> bool {
    if tok.0 == TokenKind::Word {
        let c = tok.2[0];
        c == 'a' || c == 'd' || c == 'e' || c == 'h' || c == 'l' || c == 'm' || c == 's' || c == 'v'
    } else {
        tok.0 == TokenKind::Digits || tok.0 == TokenKind::Dots || tok.0 == TokenKind::LessThan || tok.0
            == TokenKind::GreaterThan || tok.0 == TokenKind::Caret || tok.0 == TokenKind::CalloutNumber
    }
}

/// The specifier read from the front of the tokens, in the order
/// duplication, span, horizontal alignment, vertical alignment, style;
/// with the cursor after it and whether the style letter sat in a word.
pub open spec fn parsed_spec(t: Seq<TokenView>) -> (CellSpec, int, bool) {
    let d = dup_step(t, empty_cell_spec(), 0);
    let sp = span_step(t, d.0, d.1);
    let h = h_align_step(t, sp.0, sp.1);
    let v = v_align_step(t, h.0, h.1);
    style_step(t, v.0, v.1)
}

/// Token offsets leave room for the few bytes a cell start moves them by.
pub open spec fn starts_fit(t: Seq<TokenView>) -> bool {
    forall|i: int| 0 <= i < t.len() ==> (#[trigger] t[i]).1.start + 5 <= u32::MAX
}

/// Whether the tokens open a cell with separator `sep`, and how.
///
/// A token starting with the separator opens a cell with an empty
/// specifier. Otherwise a specifier must be read and be followed by the
/// separator: as a token of its own, or glued behind a style letter in one
/// word (a separator that the lexer does not split off).
pub open spec fn cell_start(t: Seq<TokenView>, sep: char) -> Option<CellStart> {
    if t.len() == 0 || t[0].2.len() == 0 {
        None
    } else if t[0].2[0] == sep {
        let whole = byte_len(t[0].2) == sep_len(sep);
        Some(
            CellStart {
                spec: empty_cell_spec(),
                drop_tokens: if whole {
                    1
                } else {
                    0
                },
                drop_bytes: if whole {
                    0
                } else {
                    sep_len(sep) as u32
                },
                resuming: (t[0].1.start + sep_len(sep)) as u32,
            },
        )
    } else if !may_open_spec(t[0]) {
        None
    } else {
        let p = parsed_spec(t);
        let c = p.1;
        if c == 0 || c >= t.len() {
            None
        } else if !p.2 {
            if t[c].2 == seq![sep] {
                Some(CellStart { spec: p.0, drop_tokens: (c + 1) as u32, drop_bytes: 0, resuming: t[c].1.end })
            } else {
                None
            }
        } else if t[c].2.len() >= 2 && t[c].2[1] == sep {
            if byte_len(t[c].2) == 2 {
                Some(CellStart { spec: p.0, drop_tokens: (c + 1) as u32, drop_bytes: 0, resuming: t[c].1.end })
            } else {
                Some(
                    CellStart {
                        spec: p.0,
                        drop_tokens: c as u32,
                        drop_bytes: (1 + sep_len(sep)) as u32,
                        resuming: (t[c].1.start + 1 + sep_len(sep)) as u32,
                    },
                )
            }
        } else {
            None
        }
    }
}

/// The tokens left once a cell start is consumed: whole tokens dropped,
/// then the separator (and style letter) cut from the front of the next.
pub open spec fn after_cell_start(t: Seq<TokenView>, cs: CellStart) -> Seq<TokenView> {
    let rest = t.skip(cs.drop_tokens as int);
    if cs.drop_bytes == 0 {
        rest
    } else {
        let tok = rest[0];
        rest.update(
            0,
            (
                tok.0,
                SourceLocation { start: (tok.1.start + cs.drop_bytes) as u32, ..tok.1 },
                tok.2.skip(
                    if cs.drop_tokens == 0 {
                        1
                    } else {
                        2
                    },
                ),
            ),
        )
    }
}

proof fn lemma_encode_two(a: char, b: char)
    ensures
        vstd::utf8::encode_utf8(seq![a, b]).len() == vstd::utf8::encode_scalar(a as u32).len()
            + vstd::utf8::encode_scalar(b as u32).len(),
        vstd::utf8::encode_utf8(seq![a]).len() == vstd::utf8::encode_scalar(a as u32).len(),
{
    let e = Seq::<char>::empty();
    assert(vstd::utf8::encode_utf8(e) =~= Seq::<u8>::empty());
    crate::token::lemma_encode_utf8_push(e, a);
    assert(e.push(a) =~= seq![a]);
    crate::token::lemma_encode_utf8_push(seq![a], b);
    assert(seq![a].push(b) =~= seq![a, b]);
}

impl Parser {
    fn peek_cell_start(&self, tokens: &TableTokens, sep: char) -> (r: Option<CellStart>)
        requires
            starts_fit(tokens@),
        ensures
            r == cell_start(tokens@, sep),
    {
        let first = match tokens.current() {
            Some(t) => t,
            None => return None,
        };
        let fcs = first.chars();
        if fcs.len() == 0 {
            return None;
        }
        let ghost t = tokens@;
        assert(t[0].1.start + 5 <= u32::MAX);
        if fcs[0] == sep {
            let sl = char_len_utf8(sep);
            let whole = first.len() == sl;
            return Some(
                CellStart {
                    spec: CellSpec::default(),
                    drop_tokens: if whole {
                        1
                    } else {
                        0
                    },
                    drop_bytes: if whole {
                        0
                    } else {
                        sl as u32
                    },
                    resuming: first.loc.start + sl as u32,
                },
            );
        }
        if first.kind == TokenKind::Word {
            let b = fcs[0];
            if !(b == 'a' || b == 'd' || b == 'e' || b == 'h' || b == 'l' || b == 'm' || b == 's' || b == 'v') {
                return None;
            }
        } else if !(first.kind == TokenKind::Digits || first.kind == TokenKind::Dots || first.kind
            == TokenKind::LessThan || first.kind == TokenKind::GreaterThan || first.kind == TokenKind::Caret
            || first.kind == TokenKind::CalloutNumber) {
            return None;
        }
        let mut spec = CellSpec::default();
        let mut cursor: u32 = 0;
        parse_duplication_factor(tokens, &mut spec, &mut cursor);
        parse_span_factor(tokens, &mut spec, &mut cursor);
        parse_h_align(tokens, &mut spec, &mut cursor);
        parse_v_align(tokens, &mut spec, &mut cursor);
        let within = parse_style(tokens, &mut spec, &mut cursor);
        assert((spec, cursor as int, within) == parsed_spec(t));
        if cursor == 0 {
            return None;
        }
        let ct = match tokens.nth(cursor as usize) {
            Some(tok) => tok,
            None => return None,
        };
        let ccs = ct.chars();
        assert(t[cursor as int].1.start + 5 <= u32::MAX);
        if !within {
            if ccs.len() == 1 && ccs[0] == sep {
                assert(ccs@ =~= seq![sep]);
                Some(CellStart { spec, drop_tokens: cursor + 1, drop_bytes: 0, resuming: ct.loc.end })
            } else {
                assert(ccs@ != seq![sep]) by {
                    if ccs@ == seq![sep] {
                        assert(ccs@.len() == 1 && ccs@[0] == sep);
                    }
                }
                None
            }
        } else if ccs.len() >= 2 && ccs[1] == sep {
            if ct.len() == 2 {
                Some(CellStart { spec, drop_tokens: cursor + 1, drop_bytes: 0, resuming: ct.loc.end })
            } else {
                let sl = char_len_utf8(sep) as u32;
                Some(
                    CellStart {
                        spec,
                        drop_tokens: cursor,
                        drop_bytes: 1 + sl,
                        resuming: ct.loc.start + 1 + sl,
                    },
                )
            }
        } else {
            None
        }
    }

    /// Whether the tokens open a cell of a prefix-separated table.
    pub fn starts_psv_cell(&self, tokens: &TableTokens, sep: char) -> (r: bool)
        requires
            starts_fit(tokens@),
        ensures
            r == cell_start(tokens@, sep) is Some,
    {
        self.peek_cell_start(tokens, sep).is_some()
    }

    /// Consumes a cell start, returning its specifier and the offset the
    /// cell's content resumes at; without one the tokens are left alone.
    pub fn consume_cell_start(&self, tokens: &mut TableTokens, sep: char) -> (r: Option<(CellSpec, u32)>)
        requires
            starts_fit(old(tokens)@),
        ensures
            match cell_start(old(tokens)@, sep) {
                Some(cs) => r == Some((cs.spec, cs.resuming)) && final(tokens)@ == after_cell_start(
                    old(tokens)@,
                    cs,
                ),
                None => r is None && final(tokens)@ == old(tokens)@,
            },
            crate::laws::contiguous(old(tokens)@) ==> (r matches Some(x) ==> (final(tokens)@.len() > 0
                ==> final(tokens)@[0].1.start == x.1)),
    {
        proof {
            if crate::laws::contiguous(tokens@) && cell_start(tokens@, sep) is Some && after_cell_start(
                tokens@,
                cell_start(tokens@, sep)->0,
            ).len() > 0 {
                crate::laws::law_cell_content_resumes_at_remaining_tokens(tokens@, sep);
            }
        }
        let data = match self.peek_cell_start(tokens, sep) {
            Some(d) => d,
            None => return None,
        };
        let ghost t = tokens@;
        let ghost p = parsed_spec(t);
        tokens.discard(data.drop_tokens as usize);
        if data.drop_bytes != 0 {
            proof {
                let dt = data.drop_tokens as int;
                let tok = t[dt];
                assert(tokens@[0] == tok);
                assert(t[dt].1.start + 5 <= u32::MAX);
                if dt == 0 {
                    lemma_encode_two(sep, sep);
                    assert(tok.2.take(1) =~= seq![sep]);
                } else {
                    lemma_encode_two(tok.2[0], sep);
                    assert(tok.2.take(2) =~= seq![tok.2[0], sep]);
                    assert(style_of_char(tok.2[0]) is Some);
                }
            }
            let ghost before = tokens@;
            let ghost k: int = if data.drop_tokens == 0 { 1 } else { 2 };
            assert(vstd::utf8::encode_utf8(before[0].2.take(k)).len() == data.drop_bytes);
            tokens.drop_leading_bytes(data.drop_bytes);
            proof {
                assert(tokens@[0].2 == before[0].2.skip(k));
                assert(tokens@ =~= after_cell_start(t, data)) by {
                    assert(tokens@.drop_first() == before.drop_first());
                    assert forall|i: int| 1 <= i < tokens@.len() implies tokens@[i] == before[i] by {
                        assert(tokens@[i] == tokens@.drop_first()[i - 1]);
                        assert(before[i] == before.drop_first()[i - 1]);
                    }
                }
            }
        }
        Some((data.spec, data.resuming))
    }
}

/// The pattern one column specifier matches: repeat `N*` (group 1),
/// horizontal alignment (2), vertical alignment after a dot (3), width `N`,
/// `N%` or `~` (4), style letter (5).
pub open spec fn colspec_pattern() -> Seq<char> {
    r"^\s*(?:(\d+)\*)?([<^>])?(?:\.([<^>]))?((?:\d+%?)|~)?(a|d|e|h|l|m|s)?\s*$"@
}

pub open spec fn h_align_of(g: Seq<char>) -> HorizontalAlignment {
    if g == seq!['^'] {
        HorizontalAlignment::Center
    } else if g == seq!['>'] {
        HorizontalAlignment::Right
    } else {
        HorizontalAlignment::Left
    }
}

pub open spec fn v_align_of(g: Seq<char>) -> VerticalAlignment {
    if g == seq!['^'] {
        VerticalAlignment::Middle
    } else if g == seq!['>'] {
        VerticalAlignment::Bottom
    } else {
        VerticalAlignment::Top
    }
}

/// A number read as a `u8`, 1 when it is none.
pub open spec fn u8_or_one(s: Seq<char>) -> u8 {
    match u8_of(s) {
        Some(v) => v,
        None => 1,
    }
}

/// A width: `~` is automatic, `N%` a percentage, `N` a proportion.
pub open spec fn width_of(g: Seq<char>) -> ColWidth {
    if g == seq!['~'] {
        ColWidth::Auto
    } else if g.len() > 0 && g.last() == '%' {
        ColWidth::Percentage(u8_or_one(g.drop_last()))
    } else {
        ColWidth::Proportional(u8_or_one(g))
    }
}

/// A style named by a one-letter text, the default style otherwise.
pub open spec fn style_of_text(g: Seq<char>) -> CellContentStyle {
    if g.len() == 1 && style_of_char(g[0]) is Some {
        style_of_char(g[0])->0
    } else {
        CellContentStyle::Default
    }
}

/// A number read as an `i32`, 1 when it is none.
pub open spec fn i32_or_one(s: Seq<char>) -> int {
    match crate::text::signed_decimal(s) {
        Some(v) => if i32::MIN <= v <= i32::MAX {
            v
        } else {
            1
        },
        None => 1,
    }
}

/// The column specifier the groups of a match describe.
pub open spec fn col_spec_of_groups(gs: Seq<Option<Seq<char>>>) -> ColSpec {
    ColSpec {
        width: match crate::rx::group_of(gs, 4) {
            Some(w) => width_of(w),
            None => ColWidth::Proportional(1),
        },
        h_align: match crate::rx::group_of(gs, 2) {
            Some(h) => h_align_of(h),
            None => HorizontalAlignment::Left,
        },
        v_align: match crate::rx::group_of(gs, 3) {
            Some(v) => v_align_of(v),
            None => VerticalAlignment::Top,
        },
        style: match crate::rx::group_of(gs, 5) {
            Some(st) => style_of_text(st),
            None => CellContentStyle::Default,
        },
    }
}

/// How many columns a match stands for: its repeat when above 1, else 1.
pub open spec fn repeat_of_groups(gs: Seq<Option<Seq<char>>>) -> nat {
    let n = match crate::rx::group_of(gs, 1) {
        Some(d) => i32_or_one(d),
        None => 1,
    };
    if n > 1 {
        n as nat
    } else {
        1
    }
}

/// The columns the groups of a match describe.
pub open spec fn col_specs_of_groups(gs: Seq<Option<Seq<char>>>) -> Seq<ColSpec> {
    Seq::new(repeat_of_groups(gs), |i: int| col_spec_of_groups(gs))
}

/// The columns one comma- or semicolon-separated part of a `cols`
/// attribute describes; an empty part, or one the pattern does not match,
/// is one default column.
pub open spec fn col_specs_of_part(p: Seq<char>) -> Seq<ColSpec> {
    if p.len() == 0 || !crate::rx::regex_compiles(colspec_pattern()) {
        seq![default_col_spec()]
    } else {
        match crate::rx::regex_captures(colspec_pattern(), p) {
            Some(gs) => col_specs_of_groups(gs),
            None => seq![default_col_spec()],
        }
    }
}

/// The columns of several parts, in order.
pub open spec fn col_specs_of_parts(ps: Seq<Seq<char>>) -> Seq<ColSpec>
    decreases ps.len(),
{
    if ps.len() == 0 {
        Seq::empty()
    } else {
        col_specs_of_parts(ps.drop_last()) + col_specs_of_part(ps.last())
    }
}

/// The columns of a `cols` attribute. A blank attribute gives none; one of
/// digits only gives that many default columns; otherwise each part split
/// on `,` or `;` gives its columns.
pub open spec fn col_specs_of(s: Seq<char>) -> Seq<ColSpec> {
    if crate::text::trim(s).len() == 0 {
        Seq::empty()
    } else if crate::text::all_digits(s) {
        let n = i32_or_one(s);
        Seq::new(
            if n > 0 {
                n as nat
            } else {
                0
            },
            |i: int| default_col_spec(),
        )
    } else {
        col_specs_of_parts(crate::text::split_chars(s, ';', ','))
    }
}

fn char_is(cs: &Vec<char>, c: char) -> (r: bool)
    ensures
        r == (cs@ == seq![c]),
{
    if cs.len() == 1 && cs[0] == c {
        assert(cs@ =~= seq![c]);
        true
    } else {
        assert(cs@ != seq![c]) by {
            if cs@ == seq![c] {
                assert(cs@.len() == 1);
            }
        }
        false
    }
}

fn i32_or_one_exec(cs: &[char]) -> (r: i32)
    ensures
        r == i32_or_one(cs@),
{
    match crate::text::parse_signed(cs, 2147483647) {
        Some(v) => v as i32,
        None => 1,
    }
}

fn u8_or_one_exec(cs: &[char]) -> (r: u8)
    ensures
        r == u8_or_one(cs@),
{
    match crate::text::parse_u8(cs) {
        Some(v) => v,
        None => 1,
    }
}

/// Appends the columns the groups of a match of the column pattern
/// describe.
pub fn push_col_specs_of_groups(gs: &Vec<Option<String>>, specs: &mut Vec<ColSpec>)
    ensures
        final(specs)@ == old(specs)@ + col_specs_of_groups(crate::rx::groups_view(gs@)),
{
    let ghost g = crate::rx::groups_view(gs@);
    let mut spec = ColSpec::default();
    if let Some(h) = crate::rx::group(gs, 2) {
        let cs = crate::text::chars_of(h.as_str());
        spec.h_align = if char_is(&cs, '^') {
            HorizontalAlignment::Center
        } else if char_is(&cs, '>') {
            HorizontalAlignment::Right
        } else {
            HorizontalAlignment::Left
        };
    }
    if let Some(v) = crate::rx::group(gs, 3) {
        let cs = crate::text::chars_of(v.as_str());
        spec.v_align = if char_is(&cs, '^') {
            VerticalAlignment::Middle
        } else if char_is(&cs, '>') {
            VerticalAlignment::Bottom
        } else {
            VerticalAlignment::Top
        };
    }
    if let Some(w) = crate::rx::group(gs, 4) {
        let cs = crate::text::chars_of(w.as_str());
        if char_is(&cs, '~') {
            spec.width = ColWidth::Auto;
        } else if cs.len() > 0 && cs[cs.len() - 1] == '%' {
            let digits = &cs.as_slice()[0..cs.len() - 1];
            assert(digits@ =~= cs@.drop_last());
            spec.width = ColWidth::Percentage(u8_or_one_exec(digits));
        } else {
            spec.width = ColWidth::Proportional(u8_or_one_exec(cs.as_slice()));
        }
    }
    if let Some(st) = crate::rx::group(gs, 5) {
        let cs = crate::text::chars_of(st.as_str());
        spec.style = CellContentStyle::Default;
        if cs.len() == 1 {
            if let Some(found) = style_from_char(cs[0]) {
                spec.style = found;
            }
        }
    }
    assert(spec == col_spec_of_groups(g));
    let repeat: i32 = match crate::rx::group(gs, 1) {
        Some(d) => {
            let cs = crate::text::chars_of(d.as_str());
            i32_or_one_exec(cs.as_slice())
        },
        None => 1,
    };
    assert(repeat as int == match crate::rx::group_of(g, 1) {
        Some(d) => i32_or_one(d),
        None => 1,
    });
    let ghost start = specs@;
    let mut i: i32 = 1;
    while i < repeat
        invariant
            1 <= i,
            repeat > 1 ==> i <= repeat,
            repeat <= 1 ==> i == 1,
            specs@ == start + Seq::new((i - 1) as nat, |j: int| col_spec_of_groups(g)),
            spec == col_spec_of_groups(g),
        decreases repeat - i,
    {
        specs.push(spec);
        assert(Seq::new((i - 1) as nat, |j: int| col_spec_of_groups(g)).push(spec) =~= Seq::new(
            i as nat,
            |j: int| col_spec_of_groups(g),
        ));
        i = i + 1;
    }
    specs.push(spec);
    proof {
        let n = repeat_of_groups(g);
        assert(n == if repeat > 1 { repeat as nat } else { 1 });
        assert(Seq::new((i - 1) as nat, |j: int| col_spec_of_groups(g)).push(spec) =~= col_specs_of_groups(g));
    }
}

/// Appends the columns one part of a `cols` attribute describes.
pub fn parse_col_spec(col_attr: &str, specs: &mut Vec<ColSpec>)
    ensures
        final(specs)@ == old(specs)@ + col_specs_of_part(col_attr@),
{
    let pattern = r"^\s*(?:(\d+)\*)?([<^>])?(?:\.([<^>]))?((?:\d+%?)|~)?(a|d|e|h|l|m|s)?\s*$";
    let cs = crate::text::chars_of(col_attr);
    if cs.len() == 0 || !crate::rx::compiles(pattern) {
        specs.push(ColSpec::default());
        return;
    }
    match crate::rx::captures(pattern, col_attr) {
        Some(gs) => {
            proof {
                let named = crate::rx::regex_captures(colspec_pattern(), col_attr@)->0;
                crate::rx::lemma_groups_view(gs@, named);
            }
            push_col_specs_of_groups(&gs, specs);
        },
        None => specs.push(ColSpec::default()),
    }
}

/// Whether every char is an ASCII digit.
pub fn all_ascii_digits(cs: &[char]) -> (r: bool)
    ensures
        r == crate::text::all_digits(cs@),
{
    let mut k: usize = 0;
    while k < cs.len()
        invariant
            0 <= k <= cs@.len(),
            forall|j: int| 0 <= j < k ==> crate::text::is_digit(#[trigger] cs@[j]),
        decreases cs@.len() - k,
    {
        if !('0' <= cs[k] && cs[k] <= '9') {
            assert(!crate::text::is_digit(cs@[k as int]));
            return false;
        }
        k = k + 1;
    }
    true
}

/// `n` default columns (none when `n` is not positive).
fn default_col_specs(n: i32) -> (r: Vec<ColSpec>)
    ensures
        r@ == Seq::new(
            if n > 0 {
                n as nat
            } else {
                0
            },
            |j: int| default_col_spec(),
        ),
{
    let mut specs: Vec<ColSpec> = Vec::new();
    let mut i: i32 = 0;
    while i < n
        invariant
            0 <= i,
            n > 0 ==> i <= n,
            n <= 0 ==> i == 0,
            specs@ == Seq::new(i as nat, |j: int| default_col_spec()),
        decreases n - i,
    {
        specs.push(ColSpec::default());
        assert(Seq::new(i as nat, |j: int| default_col_spec()).push(default_col_spec()) =~= Seq::new(
            (i + 1) as nat,
            |j: int| default_col_spec(),
        ));
        i = i + 1;
    }
    specs
}

/// The columns of the parts of `cs` split on `;` or `,`.
fn col_specs_of_split(cs: &Vec<char>) -> (r: Vec<ColSpec>)
    ensures
        r@ == col_specs_of_parts(crate::text::split_chars(cs@, ';', ',')),
{
    let mut specs: Vec<ColSpec> = Vec::new();
    let parts = crate::text::split_bounds(cs.as_slice(), ';', ',');
    let ghost ps = crate::text::split_chars(cs@, ';', ',');
    let mut p: usize = 0;
    while p < parts.len()
        invariant
            0 <= p <= parts@.len(),
            parts@.len() == ps.len(),
            forall|q: int|
                0 <= q < parts@.len() ==> (#[trigger] parts@[q]).0 <= parts@[q].1 <= cs@.len()
                    && cs@.subrange(parts@[q].0 as int, parts@[q].1 as int) == ps[q],
            specs@ == col_specs_of_parts(ps.take(p as int)),
        decreases parts@.len() - p,
    {
        let (s0, e0) = parts[p];
        let part = crate::text::string_of(&cs.as_slice()[s0..e0]);
        proof {
            assert(parts@[p as int].0 <= parts@[p as int].1 <= cs@.len());
            assert(cs@.subrange(s0 as int, e0 as int) == ps[p as int]);
            assert(ps.take(p + 1).drop_last() =~= ps.take(p as int));
        }
        parse_col_spec(part.as_str(), &mut specs);
        p = p + 1;
    }
    assert(ps.take(p as int) =~= ps);
    specs
}

impl Parser {
    /// The columns a `cols` attribute describes.
    pub fn parse_col_specs(&self, cols_attr: &str) -> (r: Vec<ColSpec>)
        ensures
            r@ == col_specs_of(cols_attr@),
    {
        let cs = crate::text::chars_of(cols_attr);
        let (a, b) = crate::text::trim_bounds(cs.as_slice(), 0, cs.len());
        assert(cs@.subrange(0, cs@.len() as int) =~= cs@);
        if a == b {
            return Vec::new();
        }
        if all_ascii_digits(cs.as_slice()) {
            let repeat = i32_or_one_exec(cs.as_slice());
            return default_col_specs(repeat);
        }
        col_specs_of_split(&cs)
    }
}

} // verus!
