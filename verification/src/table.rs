//! Table parsing state: data formats and their separators, the token stream
//! of a table, header-row detection, and cells covered by row and column
//! spans.
use vstd::prelude::*;

use crate::line::{Line, TokenSpec};
use crate::parser::Parser;
use crate::include_directive::strings_of;
use crate::token::{SourceLocation, Token, TokenKind};

verus! {

/// How a table's data is written, with its cell separator.
#[derive(Debug, PartialEq, Eq, Structural, Clone, Copy)]
pub enum DataFormat {
    Prefix(char),
    Csv(char),
    Delimited(char),
}

/// The separator of a data format.
pub open spec fn separator_of(f: DataFormat) -> char {
    match f {
        DataFormat::Prefix(c) => c,
        DataFormat::Csv(c) => c,
        DataFormat::Delimited(c) => c,
    }
}

/// A separator that can stand inside a word token, i.e. one that the lexer
/// does not make a token of its own.
pub open spec fn embeddable_of(sep: char) -> Option<char> {
    if sep == ':' || sep == ';' || sep == '|' || sep == ',' {
        None
    } else {
        Some(sep)
    }
}

/// The token kind the lexer gives a separator, if it is one of its own.
pub open spec fn separator_kind_of(sep: char) -> Option<TokenKind> {
    if sep == ':' {
        Some(TokenKind::Colon)
    } else if sep == ';' {
        Some(TokenKind::SemiColon)
    } else if sep == '|' {
        Some(TokenKind::Pipe)
    } else if sep == ',' {
        Some(TokenKind::Comma)
    } else {
        None
    }
}

impl DataFormat {
    /// Replaces the separator, keeping the format.
    pub fn replace_separator(&mut self, sep: char)
        ensures
            separator_of(*final(self)) == sep,
            (*old(self) is Prefix) == (*final(self) is Prefix),
            (*old(self) is Csv) == (*final(self) is Csv),
            (*old(self) is Delimited) == (*final(self) is Delimited),
    {
        match self {
            DataFormat::Prefix(_) => *self = DataFormat::Prefix(sep),
            DataFormat::Csv(_) => *self = DataFormat::Csv(sep),
            DataFormat::Delimited(_) => *self = DataFormat::Delimited(sep),
        }
    }

    pub fn separator(&self) -> (c: char)
        ensures
            c == separator_of(*self),
    {
        match self {
            DataFormat::Prefix(c) => *c,
            DataFormat::Csv(c) => *c,
            DataFormat::Delimited(c) => *c,
        }
    }

    /// The separator (same as `separator`).
    pub fn sep(&self) -> (c: char)
        ensures
            c == separator_of(*self),
    {
        self.separator()
    }

    pub fn embeddable_separator(&self) -> (r: Option<char>)
        ensures
            r == embeddable_of(separator_of(*self)),
    {
        let sep = self.separator();
        if sep == ':' || sep == ';' || sep == '|' || sep == ',' {
            None
        } else {
            Some(sep)
        }
    }

    pub fn separator_token_kind(&self) -> (r: Option<TokenKind>)
        ensures
            r == separator_kind_of(separator_of(*self)),
    {
        let sep = self.separator();
        if sep == ':' {
            Some(TokenKind::Colon)
        } else if sep == ';' {
            Some(TokenKind::SemiColon)
        } else if sep == '|' {
            Some(TokenKind::Pipe)
        } else if sep == ',' {
            Some(TokenKind::Comma)
        } else {
            None
        }
    }
}

/// What is known of a table's header row.
#[derive(Debug, Clone, Copy, PartialEq, Eq, Structural)]
pub enum HeaderRow {
    Unknown,
    FoundImplicit,
    FoundNone,
    ExplicitlySet,
    ExplicitlyUnset,
}

impl HeaderRow {
    pub fn known_to_exist(&self) -> (r: bool)
        ensures
            r == (*self is FoundImplicit || *self is ExplicitlySet),
    {
        match self {
            HeaderRow::FoundImplicit | HeaderRow::ExplicitlySet => true,
            _ => false,
        }
    }

    pub fn is_unknown(&self) -> (r: bool)
        ensures
            r == (*self is Unknown),
    {
        match self {
            HeaderRow::Unknown => true,
            _ => false,
        }
    }
}

/// What a delimiter-separated table reader consumed last.
#[derive(Debug, Clone, Copy, PartialEq, Eq, Structural)]
pub enum DsvLastConsumed {
    Delimiter,
    Newline,
    Other,
}

/// The tokens of a table not yet consumed.
#[derive(Debug)]
pub struct TableTokens(pub Line);

impl View for TableTokens {
    type V = Seq<(TokenKind, SourceLocation, Seq<char>)>;

    open spec fn view(&self) -> Self::V {
        self.0@
    }
}

/// The index of the first `sep` in `s`.
pub open spec fn first_index_of(s: Seq<char>, sep: char) -> Option<int> {
    if exists|i: int| 0 <= i < s.len() && s[i] == sep {
        Some(choose|i: int| 0 <= i < s.len() && s[i] == sep && forall|j: int| 0 <= j < i ==> s[j] != sep)
    } else {
        None
    }
}

impl TableTokens {
    pub fn new(tokens: Vec<Token>) -> (t: TableTokens)
        ensures
            t.0.tokens@ == tokens@,
    {
        TableTokens(Line::new(tokens))
    }

    pub fn discard(&mut self, n: usize)
        ensures
            final(self)@ == old(self)@.skip(if n <= old(self)@.len() { n as int } else { old(self)@.len() as int }),
    {
        self.0.discard(n);
    }

    pub fn current(&self) -> (r: Option<&Token>)
        ensures
            self@.len() == 0 ==> r is None,
            self@.len() > 0 ==> (r matches Some(t) && crate::line::token_view(*t) == self@[0]),
    {
        self.0.current_token()
    }

    /// The current token, for changing in place.
    pub fn current_mut(&mut self) -> (r: Option<&mut Token>)
        ensures
            old(self)@.len() == 0 ==> r is None,
            old(self)@.len() > 0 ==> (r matches Some(t) && crate::line::token_view(*t) == old(self)@[0]),
    {
        self.0.tokens.first_mut()
    }

    pub fn nth(&self, n: usize) -> (r: Option<&Token>)
        ensures
            n >= self@.len() ==> r is None,
            n < self@.len() ==> (r matches Some(t) && crate::line::token_view(*t) == self@[n as int]),
    {
        self.0.nth_token(n)
    }

    pub fn has_seq_at(&self, specs: &[TokenSpec], offset: u32) -> (r: bool)
        ensures
            r == crate::line::seq_at(self@, specs@, offset as int),
    {
        self.0.has_seq_at(specs, offset as usize)
    }

    pub fn consume_current(&mut self) -> (r: Option<Token>)
        ensures
            old(self)@.len() == 0 ==> r is None && final(self)@ == old(self)@,
            old(self)@.len() > 0 ==> (r matches Some(t) && crate::line::token_view(t) == old(self)@[0])
                && final(self)@ == old(self)@.drop_first(),
    {
        self.0.consume_current()
    }

    /// Drops the first `n` bytes of the current token.
    pub fn drop_leading_bytes(&mut self, n: u32)
        requires
            old(self)@.len() > 0,
            exists|k: int| 0 <= k <= old(self)@[0].2.len() && vstd::utf8::encode_utf8(old(self)@[0].2.take(k)).len() == n,
            old(self)@[0].1.start + n <= u32::MAX,
        ensures
            final(self)@.len() == old(self)@.len(),
            final(self)@.drop_first() == old(self)@.drop_first(),
            final(self)@[0].0 == old(self)@[0].0,
            final(self)@[0].1 == (SourceLocation { start: (old(self)@[0].1.start + n) as u32, ..old(self)@[0].1 }),
            forall|k: int| 0 <= k <= old(self)@[0].2.len() && vstd::utf8::encode_utf8(old(self)@[0].2.take(k)).len() == n
                ==> final(self)@[0].2 == old(self)@[0].2.skip(k),
    {
        let ghost before = self.0.tokens@;
        let mut t = self.0.tokens.remove(0);
        t.drop_leading_bytes(n);
        self.0.tokens.insert(0, t);
        proof {
            assert(self.0.tokens@.drop_first() =~= before.drop_first());
            assert(self@.drop_first() =~= old(self)@.drop_first());
        }
    }

    pub fn is_empty(&self) -> (r: bool)
        ensures
            r == (self@.len() == 0),
    {
        self.0.is_empty()
    }

    /// Takes the next word's text up to an embeddable separator inside it,
    /// leaving the rest (separator first) as the current token; any other
    /// token is consumed whole.
    pub fn consume_splitting(&mut self, embeddable_separator: Option<char>) -> (r: Option<Token>)
        requires
            embeddable_separator matches Some(sep) ==> (old(self)@.len() > 0 && old(self)@[0].0 == TokenKind::Word
                ==> old(self)@[0].2.len() > 0 && old(self)@[0].2[0] != sep),
            old(self)@.len() > 0 ==> old(self)@[0].1.start + vstd::utf8::encode_utf8(old(self)@[0].2).len() <= u32::MAX,
        ensures
            match embeddable_separator {
                Some(sep) if old(self)@.len() > 0 && old(self)@[0].0 == TokenKind::Word
                    && first_index_of(old(self)@[0].2, sep) is Some => {
                    let i = first_index_of(old(self)@[0].2, sep)->0;
                    let t = old(self)@[0];
                    let n = vstd::utf8::encode_utf8(t.2.take(i)).len();
                    &&& r matches Some(tok) && tok.kind == TokenKind::Word && tok.lexeme@ == t.2.take(i)
                        && tok.loc == (SourceLocation { start: t.1.start, end: (t.1.start + n) as u32, include_depth: t.1.include_depth })
                    &&& final(self)@.len() == old(self)@.len()
                    &&& final(self)@.drop_first() == old(self)@.drop_first()
                    &&& final(self)@[0] == (t.0, SourceLocation { start: (t.1.start + n) as u32, ..t.1 }, t.2.skip(i))
                },
                _ => (old(self)@.len() == 0 ==> r is None && final(self)@ == old(self)@)
                    && (old(self)@.len() > 0 ==> (r matches Some(t) && crate::line::token_view(t) == old(self)@[0])
                    && final(self)@ == old(self)@.drop_first()),
            },
    {
        let sep = match embeddable_separator {
            None => {
                return self.consume_current();
            },
            Some(s) => s,
        };
        if self.0.tokens.len() == 0 || self.0.tokens[0].kind != TokenKind::Word {
            return self.consume_current();
        }
        let cs = self.0.tokens[0].chars();
        let ghost t = self@[0];
        let mut i: usize = 0;
        while i < cs.len() && cs[i] != sep
            invariant
                0 <= i <= cs@.len(),
                forall|j: int| 0 <= j < i ==> cs@[j] != sep,
            decreases cs@.len() - i,
        {
            i = i + 1;
        }
        if i == cs.len() {
            assert(first_index_of(t.2, sep) is None);
            return self.consume_current();
        }
        assert(first_index_of(t.2, sep) == Some(i as int)) by {
            let c = choose|j: int| 0 <= j < t.2.len() && t.2[j] == sep && forall|m: int| 0 <= m < j ==> t.2[m] != sep;
            if c < i {
                assert(cs@[c] != sep);
            }
            if c > i {
                assert(t.2[i as int] == sep);
            }
        }
        let before = crate::text::string_of(&cs.as_slice()[0..i]);
        assert(cs@.subrange(0, i as int) =~= t.2.take(i as int));
        let before_len = before.as_str().as_bytes().len();
        let loc = self.0.tokens[0].loc;
        proof {
            let full = t.2;
            assert(full.take(i as int) + full.skip(i as int) =~= full);
            crate::token::lemma_prefix_bytes_le(full, i as int);
        }
        let before_len32 = before_len as u32;
        self.drop_leading_bytes(before_len32);
        Some(Token {
            kind: TokenKind::Word,
            lexeme: before,
            loc: SourceLocation { start: loc.start, end: loc.start + before_len32, include_depth: loc.include_depth },
        })
    }
}


/// A cell's tokens kept for reparsing once the header row is known.
#[derive(Debug)]
pub struct ParseCellData {
    pub cell_tokens: Vec<Token>,
    pub loc: SourceLocation,
    pub cell_spec: crate::table_spec::CellSpec,
    pub col_spec: Option<crate::table_spec::ColSpec>,
}

/// The state of a table being parsed. Cells covered by an earlier cell's
/// row or column span ("phantom" cells) are kept as `(row, column)` pairs,
/// each once.
#[derive(Debug)]
pub struct TableContext {
    pub delim_ch: u8,
    pub format: DataFormat,
    pub cell_separator: char,
    pub embeddable_cell_separator: Option<char>,
    pub cell_separator_tokenkind: Option<TokenKind>,
    pub col_specs: Vec<crate::table_spec::ColSpec>,
    pub num_cols: usize,
    pub counting_cols: bool,
    pub header_row: HeaderRow,
    pub header_reparse_cells: Vec<ParseCellData>,
    pub autowidths: bool,
    pub phantom_cells: Vec<(usize, usize)>,
    pub effective_row_idx: usize,
    pub dsv_last_consumed: DsvLastConsumed,
}

/// The cells a cell spanning `row_span` rows and `col_span` columns from
/// `(row, col)` covers besides itself.
pub open spec fn covered_cells(row: int, col: int, row_span: int, col_span: int) -> Set<(usize, usize)> {
    Set::new(
        |p: (usize, usize)|
            row <= p.0 < row + row_span && col <= p.1 < col + col_span && !(p.0 == row && p.1 == col),
    )
}

/// How many of the cells lie in row `row`.
pub open spec fn count_in_row(cells: Seq<(usize, usize)>, row: usize) -> nat
    decreases cells.len(),
{
    if cells.len() == 0 {
        0
    } else {
        count_in_row(cells.drop_last(), row) + if cells.last().0 == row {
            1nat
        } else {
            0nat
        }
    }
}

/// `b` is `a` with at most its phantom cells changed.
pub open spec fn same_but_phantoms(a: &TableContext, b: &TableContext) -> bool {
    &&& b.effective_row_idx == a.effective_row_idx
    &&& b.num_cols == a.num_cols
    &&& b.delim_ch == a.delim_ch
    &&& b.format == a.format
    &&& b.cell_separator == a.cell_separator
    &&& b.embeddable_cell_separator == a.embeddable_cell_separator
    &&& b.cell_separator_tokenkind == a.cell_separator_tokenkind
    &&& b.col_specs == a.col_specs
    &&& b.counting_cols == a.counting_cols
    &&& b.header_row == a.header_row
    &&& b.header_reparse_cells == a.header_reparse_cells
    &&& b.autowidths == a.autowidths
    &&& b.dsv_last_consumed == a.dsv_last_consumed
}

impl TableContext {
    /// Records the cells that a cell at column `col` of the current row
    /// covers with its spans.
    pub fn add_phantom_cells(&mut self, row_span: u8, col_span: u8, col: usize)
        requires
            old(self).phantom_cells@.no_duplicates(),
            old(self).effective_row_idx + 255 <= usize::MAX,
            col + 255 <= usize::MAX,
        ensures
            final(self).phantom_cells@.no_duplicates(),
            final(self).phantom_cells@.to_set() == old(self).phantom_cells@.to_set() + covered_cells(
                old(self).effective_row_idx as int,
                col as int,
                row_span as int,
                col_span as int,
            ),
            final(self).effective_row_idx == old(self).effective_row_idx,
            final(self).num_cols == old(self).num_cols,
            same_but_phantoms(old(self), final(self)),
    {
        let ghost target = old(self).phantom_cells@.to_set() + covered_cells(
            old(self).effective_row_idx as int,
            col as int,
            row_span as int,
            col_span as int,
        );
        if row_span == 0 && col_span == 0 {
            assert(covered_cells(self.effective_row_idx as int, col as int, 0, 0) =~= Set::empty());
            assert(self.phantom_cells@.to_set() =~= target);
            return;
        }
        let mut r: u8 = 0;
        while r < row_span
            invariant
                0 <= r <= row_span,
                self.phantom_cells@.no_duplicates(),
                self.effective_row_idx == old(self).effective_row_idx,
                self.num_cols == old(self).num_cols,
                same_but_phantoms(old(self), self),
                self.effective_row_idx + 255 <= usize::MAX,
                col + 255 <= usize::MAX,
                self.phantom_cells@.to_set() == old(self).phantom_cells@.to_set() + covered_cells(
                    self.effective_row_idx as int,
                    col as int,
                    r as int,
                    col_span as int,
                ),
            decreases row_span - r,
        {
            let mut c: u8 = 0;
            while c < col_span
                invariant
                    0 <= r < row_span,
                    0 <= c <= col_span,
                    self.phantom_cells@.no_duplicates(),
                    self.effective_row_idx == old(self).effective_row_idx,
                    self.num_cols == old(self).num_cols,
                    same_but_phantoms(old(self), self),
                    self.effective_row_idx + 255 <= usize::MAX,
                    col + 255 <= usize::MAX,
                    self.phantom_cells@.to_set() == old(self).phantom_cells@.to_set() + covered_cells(
                        self.effective_row_idx as int,
                        col as int,
                        r as int,
                        col_span as int,
                    ) + Set::new(
                        |p: (usize, usize)|
                            p.0 == self.effective_row_idx + r && col <= p.1 < col + c && !(r == 0 && p.1 == col),
                    ),
                decreases col_span - c,
            {
                let ghost before = self.phantom_cells@;
                if !(r == 0 && c == 0) {
                    let cell = (self.effective_row_idx + r as usize, col + c as usize);
                    if !contains_cell(&self.phantom_cells, cell) {
                        self.phantom_cells.push(cell);
                        proof {
                            before.lemma_push_to_set_commute(cell);
                            assert forall|a: int, b: int| 0 <= a < b < self.phantom_cells@.len() implies self.phantom_cells@[a] != self.phantom_cells@[b] by {
                                if b == before.len() {
                                    assert(before.contains(before[a]));
                                }
                            }
                        }
                    }
                }
                proof {
                    let e = self.effective_row_idx as int;
                    let cur = self.phantom_cells@.to_set();
                    let rhs = old(self).phantom_cells@.to_set() + covered_cells(e, col as int, r as int, col_span as int)
                        + Set::new(|p: (usize, usize)| p.0 == e + r && col <= p.1 < col + c + 1 && !(r == 0 && p.1 == col));
                    assert forall|p: (usize, usize)| cur.contains(p) <==> rhs.contains(p) by {
                        if p.0 == e + r && p.1 == col + c && !(r == 0 && c == 0) {
                            assert(rhs.contains(p));
                        }
                    }
                    assert(cur =~= rhs);
                }
                c = c + 1;
            }
            proof {
                let e = self.effective_row_idx as int;
                let cur = self.phantom_cells@.to_set();
                let rhs = old(self).phantom_cells@.to_set() + covered_cells(e, col as int, r + 1, col_span as int);
                assert forall|p: (usize, usize)| cur.contains(p) <==> rhs.contains(p) by {
                }
                assert(cur =~= rhs);
            }
            r = r + 1;
        }
    }

    /// How many phantom cells lie in the current row.
    pub fn row_phantom_cells(&self) -> (n: usize)
        ensures
            n == count_in_row(self.phantom_cells@, self.effective_row_idx),
    {
        let ghost row = self.effective_row_idx;
        let mut n: usize = 0;
        let mut i: usize = 0;
        while i < self.phantom_cells.len()
            invariant
                0 <= i <= self.phantom_cells@.len(),
                row == self.effective_row_idx,
                n == count_in_row(self.phantom_cells@.take(i as int), row),
                n <= i,
            decreases self.phantom_cells@.len() - i,
        {
            proof {
                assert(self.phantom_cells@.take(i + 1).drop_last() =~= self.phantom_cells@.take(i as int));
            }
            if self.phantom_cells[i].0 == self.effective_row_idx {
                n = n + 1;
            }
            i = i + 1;
        }
        assert(self.phantom_cells@.take(i as int) =~= self.phantom_cells@);
        n
    }

    /// The columns left in the current row once its phantom cells are
    /// discounted.
    pub fn effective_row_cols(&self) -> (n: usize)
        requires
            count_in_row(self.phantom_cells@, self.effective_row_idx) <= self.num_cols,
        ensures
            n == self.num_cols - count_in_row(self.phantom_cells@, self.effective_row_idx),
    {
        let phantom = self.row_phantom_cells();
        self.num_cols - phantom
    }
}

/// Whether the cell is among `cells`.
pub fn contains_cell(cells: &Vec<(usize, usize)>, cell: (usize, usize)) -> (r: bool)
    ensures
        r == cells@.contains(cell),
{
    let mut i: usize = 0;
    while i < cells.len()
        invariant
            0 <= i <= cells@.len(),
            forall|j: int| 0 <= j < i ==> cells@[j] != cell,
        decreases cells@.len() - i,
    {
        if cells[i].0 == cell.0 && cells[i].1 == cell.1 {
            assert(cells@[i as int] == cell);
            return true;
        }
        i = i + 1;
    }
    false
}


/// The data format of a table: the one its `format` attribute names, else
/// the one its delimiter character (`|===`, `,===`, `:===`, `!===`) implies.
pub open spec fn table_format(format_attr: Option<Seq<char>>, delim_ch: u8) -> DataFormat {
    if format_attr == Some("psv"@) {
        DataFormat::Csv('|')
    } else if format_attr == Some("csv"@) {
        DataFormat::Csv(',')
    } else if format_attr == Some("tsv"@) {
        DataFormat::Csv('\t')
    } else if format_attr == Some("dsv"@) {
        DataFormat::Delimited(':')
    } else if delim_ch == 58u8 {
        DataFormat::Delimited(':')
    } else if delim_ch == 44u8 {
        DataFormat::Csv(',')
    } else if delim_ch == 124u8 {
        DataFormat::Prefix('|')
    } else if delim_ch == 33u8 {
        DataFormat::Prefix('!')
    } else {
        DataFormat::Prefix(delim_ch as char)
    }
}

/// The format once a `separator` attribute has been applied: its first char
/// replaces the separator; an empty one changes nothing.
pub open spec fn with_separator(f: DataFormat, separator_attr: Option<Seq<char>>) -> DataFormat {
    match separator_attr {
        Some(s) if s.len() > 0 => match f {
            DataFormat::Prefix(_) => DataFormat::Prefix(s[0]),
            DataFormat::Csv(_) => DataFormat::Csv(s[0]),
            DataFormat::Delimited(_) => DataFormat::Delimited(s[0]),
        },
        _ => f,
    }
}

pub open spec fn separator_length_message() -> Seq<char> {
    "Cell separator must be exactly one character"@
}

/// What a table knows of its header row before its cells are read: the
/// `header` and `noheader` options decide; otherwise a table whose content
/// is not one paragraph has none unless it is found in the first row.
pub open spec fn initial_header_row(header: bool, noheader: bool, num_lines: nat) -> HeaderRow {
    if header {
        HeaderRow::ExplicitlySet
    } else if noheader {
        HeaderRow::ExplicitlyUnset
    } else if num_lines != 1 {
        HeaderRow::FoundNone
    } else {
        HeaderRow::Unknown
    }
}

impl Parser {
    /// The state a table starts from: its data format (from the `format`
    /// attribute or the delimiter character `delim_ch`, with the separator
    /// of a `separator` attribute), its column specs (counting columns from
    /// the first row when there are none), its header row as the `header`
    /// and `noheader` options and the number of content lines (chunks
    /// separated by blank lines) say, and `autowidth`. A `separator` that
    /// is not exactly one char is reported.
    pub fn table_context(
        &mut self,
        delim_ch: u8,
        col_specs: Vec<crate::table_spec::ColSpec>,
        format_attr: Option<&str>,
        separator_attr: Option<&str>,
        header: bool,
        noheader: bool,
        autowidth: bool,
        num_lines: usize,
    ) -> (ctx: TableContext)
        ensures
            ctx.delim_ch == delim_ch,
            ctx.format == with_separator(table_format(crate::time::opt_str_view(format_attr), delim_ch),
                crate::time::opt_str_view(separator_attr)),
            ctx.cell_separator == separator_of(ctx.format),
            ctx.embeddable_cell_separator == embeddable_of(separator_of(ctx.format)),
            ctx.cell_separator_tokenkind == separator_kind_of(separator_of(ctx.format)),
            ctx.col_specs@ == col_specs@,
            ctx.num_cols == col_specs@.len(),
            ctx.counting_cols == (col_specs@.len() == 0),
            ctx.header_row == initial_header_row(header, noheader, num_lines as nat),
            ctx.header_reparse_cells@.len() == 0,
            ctx.autowidths == autowidth,
            ctx.phantom_cells@.len() == 0,
            ctx.effective_row_idx == 0,
            ctx.dsv_last_consumed == DsvLastConsumed::Other,
            final(self).attrs@ == old(self).attrs@,
            final(self).included_files@ == old(self).included_files@,
            final(self).anchor_ids@ == old(self).anchor_ids@,
            final(self).errors@.len() >= old(self).errors@.len(),
            strings_of(final(self).errors@) == strings_of(old(self).errors@) + match separator_attr {
                Some(s) if s@.len() != 1 => seq![separator_length_message()],
                _ => Seq::<Seq<char>>::empty(),
            },
    {
        let mut format = match format_attr {
            Some(f) if crate::text::str_eq(f, "psv") => DataFormat::Csv('|'),
            Some(f) if crate::text::str_eq(f, "csv") => DataFormat::Csv(','),
            Some(f) if crate::text::str_eq(f, "tsv") => DataFormat::Csv('\t'),
            Some(f) if crate::text::str_eq(f, "dsv") => DataFormat::Delimited(':'),
            _ => if delim_ch == 58u8 {
                DataFormat::Delimited(':')
            } else if delim_ch == 44u8 {
                DataFormat::Csv(',')
            } else if delim_ch == 124u8 {
                DataFormat::Prefix('|')
            } else if delim_ch == 33u8 {
                DataFormat::Prefix('!')
            } else {
                DataFormat::Prefix(delim_ch as char)
            },
        };
        proof {
            reveal_strlit("psv");
            reveal_strlit("csv");
            reveal_strlit("tsv");
            reveal_strlit("dsv");
        }
        if let Some(sep) = separator_attr {
            let chars = crate::text::chars_of(sep);
            if chars.len() == 0 {
                self.errors.push(String::from_str("Cell separator must be exactly one character"));
            } else {
                format.replace_separator(chars[0]);
                if chars.len() > 1 {
                    self.errors.push(String::from_str("Cell separator must be exactly one character"));
                }
            }
        }
        let num_cols = col_specs.len();
        let header_row = if header {
            HeaderRow::ExplicitlySet
        } else if noheader {
            HeaderRow::ExplicitlyUnset
        } else if num_lines != 1 {
            HeaderRow::FoundNone
        } else {
            HeaderRow::Unknown
        };
        TableContext {
            delim_ch,
            format,
            cell_separator: format.separator(),
            embeddable_cell_separator: format.embeddable_separator(),
            cell_separator_tokenkind: format.separator_token_kind(),
            col_specs,
            num_cols,
            counting_cols: num_cols == 0,
            header_row,
            header_reparse_cells: Vec::new(),
            autowidths: autowidth,
            phantom_cells: Vec::new(),
            effective_row_idx: 0,
            dsv_last_consumed: DsvLastConsumed::Other,
        }
    }
}

} // verus!
