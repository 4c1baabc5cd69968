//! Reading the cells of delimiter-separated (DSV) and comma-separated
//! (CSV) tables from their tokens: where a cell ends, and which tokens it
//! holds.
use vstd::prelude::*;

use crate::csv_terms::TokenV;
use crate::line::byte_len;
use crate::parser::Parser;
use crate::table::{first_index_of, DataFormat, DsvLastConsumed, TableContext, TableTokens};
use crate::line::tokens_view;
use crate::token::{SourceLocation, Token, TokenKind};
use vstd::string::StringExecFns;

verus! {

/// A token's text as UTF-8 is the bytes of each of its parts in turn.
pub proof fn lemma_byte_len_concat(a: Seq<char>, b: Seq<char>)
    ensures
        byte_len(a + b) == byte_len(a) + byte_len(b),
    decreases b.len(),
{
    if b.len() == 0 {
        assert(a + b =~= a);
        assert(vstd::utf8::encode_utf8(b) =~= Seq::<u8>::empty());
    } else {
        let c = b.last();
        let b0 = b.drop_last();
        lemma_byte_len_concat(a, b0);
        assert(a + b =~= (a + b0).push(c));
        assert(b =~= b0.push(c));
        crate::token::lemma_encode_utf8_push(a + b0, c);
        crate::token::lemma_encode_utf8_push(b0, c);
    }
}

/// Where a token of the stream ends, in bytes.
pub open spec fn token_end(t: TokenV) -> int {
    t.1.start + byte_len(t.2)
}

/// A token stream as the lexer makes it: word tokens are not empty, and
/// every token ends within the range of `u32`.
pub open spec fn stream_wf(ts: Seq<TokenV>) -> bool {
    forall|i: int| 0 <= i < ts.len() ==> {
        &&& (#[trigger] ts[i]).0 == TokenKind::Word ==> ts[i].2.len() > 0
        &&& token_end(ts[i]) <= u32::MAX
    }
}

/// The chars of a token stream, each token counting one more: every step of
/// reading a cell takes at least one.
pub open spec fn units(ts: Seq<TokenV>) -> nat
    decreases ts.len(),
{
    if ts.len() == 0 {
        0
    } else {
        ts[0].2.len() + 1 + units(ts.drop_first())
    }
}

proof fn lemma_units_update_first(ts: Seq<TokenV>, t: TokenV)
    requires
        ts.len() > 0,
    ensures
        units(ts.update(0, t)) == units(ts) - ts[0].2.len() + t.2.len(),
{
    assert(ts.update(0, t).drop_first() =~= ts.drop_first());
}

/// The token reading takes from the front of `ts` when a separator may sit
/// inside words (`embeddable`): the text of a word up to the separator,
/// leaving the rest of the word (separator first) in front; else the whole
/// first token.
pub open spec fn split_front(ts: Seq<TokenV>, embeddable: Option<char>) -> (TokenV, Seq<TokenV>) {
    let t = ts[0];
    match embeddable {
        Some(sep) => if t.0 == TokenKind::Word && first_index_of(t.2, sep) is Some {
            let i = first_index_of(t.2, sep)->0;
            let n = byte_len(t.2.take(i));
            (
                (TokenKind::Word, SourceLocation { start: t.1.start, end: (t.1.start + n) as u32, include_depth: t.1.include_depth }, t.2.take(i)),
                ts.update(0, (t.0, SourceLocation { start: (t.1.start + n) as u32, ..t.1 }, t.2.skip(i))),
            )
        } else {
            (t, ts.drop_first())
        },
        None => (t, ts.drop_first()),
    }
}

/// Whether a cell delimiter is next in `ts` and what is left once it is
/// consumed, with what was consumed last. A newline ends a cell; so does the
/// separator, as a token of its own kind (`kind`) or else as the first char
/// of a token, which is dropped from it.
pub open spec fn dsv_delimiter(ts: Seq<TokenV>, sep: char, kind: Option<TokenKind>) -> (bool, Seq<TokenV>, DsvLastConsumed) {
    if ts.len() > 0 && ts[0].0 == TokenKind::Newline {
        (true, ts.drop_first(), DsvLastConsumed::Newline)
    } else {
        match kind {
            Some(k) => if ts.len() > 0 && ts[0].0 == k {
                (true, ts.drop_first(), DsvLastConsumed::Delimiter)
            } else {
                (false, ts, DsvLastConsumed::Other)
            },
            None => {
                let t = ts[0];
                if t.2.len() > 0 && t.2[0] == sep {
                    if t.2.len() == 1 {
                        (true, ts.drop_first(), DsvLastConsumed::Delimiter)
                    } else {
                        let n = vstd::utf8::encode_scalar(sep as u32).len();
                        (
                            true,
                            ts.update(0, (t.0, SourceLocation { start: (t.1.start + n) as u32, ..t.1 }, t.2.drop_first())),
                            DsvLastConsumed::Delimiter,
                        )
                    }
                } else {
                    (false, ts, DsvLastConsumed::Other)
                }
            },
        }
    }
}

/// The parts of a table's state that say how its cells are separated, as
/// they were set up: the separator, and whether it is a token of its own or
/// can stand inside words.
pub open spec fn separators_wf(ctx: &TableContext) -> bool {
    &&& ctx.cell_separator_tokenkind == crate::table::separator_kind_of(ctx.cell_separator)
    &&& ctx.embeddable_cell_separator == crate::table::embeddable_of(ctx.cell_separator)
}

/// `b` is `a` with at most the cell-reading fields changed.
pub open spec fn same_setup(a: &TableContext, b: &TableContext) -> bool {
    &&& b.cell_separator == a.cell_separator
    &&& b.cell_separator_tokenkind == a.cell_separator_tokenkind
    &&& b.embeddable_cell_separator == a.embeddable_cell_separator
    &&& b.format == a.format
    &&& b.num_cols == a.num_cols
    &&& b.header_row == a.header_row
    &&& b.col_specs == a.col_specs
    &&& b.phantom_cells == a.phantom_cells
    &&& b.effective_row_idx == a.effective_row_idx
}

impl Parser {
    /// Consumes a cell delimiter if one is next, as `dsv_delimiter` says,
    /// recording what was consumed; a newline also ends the counting of
    /// columns.
    pub fn consume_dsv_delimiter(&self, tokens: &mut TableTokens, ctx: &mut TableContext) -> (r: bool)
        requires
            old(ctx).cell_separator_tokenkind is None ==> old(tokens)@.len() > 0,
            stream_wf(old(tokens)@),
        ensures
            ({
                let (hit, rest, last) = dsv_delimiter(old(tokens)@, old(ctx).cell_separator, old(ctx).cell_separator_tokenkind);
                &&& r == hit
                &&& final(tokens)@ == rest
                &&& final(ctx).dsv_last_consumed == last
                &&& final(ctx).counting_cols == (old(ctx).counting_cols && last != DsvLastConsumed::Newline)
            }),
            same_setup(old(ctx), final(ctx)),
    {
        let ghost ts = tokens@;
        if tokens.current().is_some() && tokens.current().unwrap().kind == TokenKind::Newline {
            ctx.dsv_last_consumed = DsvLastConsumed::Newline;
            ctx.counting_cols = false;
            tokens.consume_current();
            return true;
        }
        ctx.dsv_last_consumed = DsvLastConsumed::Other;
        if let Some(kind) = ctx.cell_separator_tokenkind {
            return if tokens.current().is_some() && tokens.current().unwrap().kind == kind {
                ctx.dsv_last_consumed = DsvLastConsumed::Delimiter;
                tokens.consume_current();
                true
            } else {
                false
            };
        }
        let sep = ctx.cell_separator;
        let cs = tokens.current().unwrap().chars();
        assert(cs@ == ts[0].2);
        if cs.len() > 0 && cs[0] == sep {
            ctx.dsv_last_consumed = DsvLastConsumed::Delimiter;
            if cs.len() == 1 {
                tokens.consume_current();
            } else {
                let n = crate::token::char_len_utf8(sep);
                proof {
                    let l = ts[0].2;
                    assert(l.take(1) =~= Seq::<char>::empty().push(sep));
                    crate::token::lemma_encode_utf8_push(Seq::<char>::empty(), sep);
                    assert(vstd::utf8::encode_utf8(Seq::<char>::empty()) =~= Seq::<u8>::empty());
                    assert(vstd::utf8::encode_utf8(l.take(1)) =~= vstd::utf8::encode_scalar(sep as u32));
                    assert(l.take(1) + l.skip(1) =~= l);
                    lemma_byte_len_concat(l.take(1), l.skip(1));
                    assert(l.skip(1) =~= l.drop_first());
                }
                tokens.drop_leading_bytes(n as u32);
                assert(vstd::utf8::encode_utf8(ts[0].2.take(1)).len() == n);
                assert(tokens@[0].2 == ts[0].2.skip(1));
                assert(ts[0].2.skip(1) =~= ts[0].2.drop_first());
                assert(tokens@[0].1 == SourceLocation { start: (ts[0].1.start + n) as u32, ..ts[0].1 });
                assert(tokens@[0].0 == ts[0].0);
                assert(tokens@.len() == ts.len());
                assert forall|j: int| 1 <= j < ts.len() implies tokens@[j] == ts[j] by {
                    assert(tokens@.drop_first()[j - 1] == ts.drop_first()[j - 1]);
                }
                assert(tokens@ =~= ts.update(
                    0,
                    (ts[0].0, SourceLocation { start: (ts[0].1.start + n) as u32, ..ts[0].1 }, ts[0].2.drop_first()),
                ));
            }
            true
        } else {
            false
        }
    }
}

/// Replacing the front token changes the count of chars by the change in
/// its length.
pub proof fn lemma_units_update_first_pub(ts: Seq<TokenV>, t: TokenV)
    requires
        ts.len() > 0,
    ensures
        units(ts.update(0, t)) == units(ts) - ts[0].2.len() + t.2.len(),
{
    lemma_units_update_first(ts, t);
}

proof fn lemma_wf_drop_first(ts: Seq<TokenV>)
    requires
        ts.len() > 0,
        stream_wf(ts),
    ensures
        stream_wf(ts.drop_first()),
        units(ts.drop_first()) < units(ts),
{
    assert forall|i: int| 0 <= i < ts.drop_first().len() implies {
        &&& (#[trigger] ts.drop_first()[i]).0 == TokenKind::Word ==> ts.drop_first()[i].2.len() > 0
        &&& token_end(ts.drop_first()[i]) <= u32::MAX
    } by {
        assert(ts.drop_first()[i] == ts[i + 1]);
    }
}

/// Replacing the front token by one that ends where it did and keeps a
/// non-empty text keeps the stream well formed.
proof fn lemma_wf_update_first(ts: Seq<TokenV>, t: TokenV)
    requires
        ts.len() > 0,
        stream_wf(ts),
        t.0 == ts[0].0,
        t.2.len() > 0,
        token_end(t) == token_end(ts[0]),
    ensures
        stream_wf(ts.update(0, t)),
        units(ts.update(0, t)) == units(ts) - ts[0].2.len() + t.2.len(),
{
    lemma_units_update_first(ts, t);
    assert forall|i: int| 0 <= i < ts.update(0, t).len() implies {
        &&& (#[trigger] ts.update(0, t)[i]).0 == TokenKind::Word ==> ts.update(0, t)[i].2.len() > 0
        &&& token_end(ts.update(0, t)[i]) <= u32::MAX
    } by {
        if i > 0 {
            assert(ts.update(0, t)[i] == ts[i]);
        }
    }
}

proof fn lemma_delimiter_step(ts: Seq<TokenV>, sep: char, kind: Option<TokenKind>)
    requires
        stream_wf(ts),
        kind is None ==> ts.len() > 0,
    ensures
        ({
            let (hit, rest, last) = dsv_delimiter(ts, sep, kind);
            &&& stream_wf(rest)
            &&& hit ==> units(rest) < units(ts)
            &&& !hit ==> rest == ts && last == DsvLastConsumed::Other
            &&& last == DsvLastConsumed::Newline <==> (ts.len() > 0 && ts[0].0 == TokenKind::Newline)
        }),
{
    if ts.len() > 0 && ts[0].0 == TokenKind::Newline {
        lemma_wf_drop_first(ts);
    } else {
        match kind {
            Some(k) => if ts.len() > 0 && ts[0].0 == k {
                lemma_wf_drop_first(ts);
            },
            None => {
                let t = ts[0];
                if t.2.len() > 0 && t.2[0] == sep {
                    if t.2.len() == 1 {
                        lemma_wf_drop_first(ts);
                    } else {
                        let n = vstd::utf8::encode_scalar(sep as u32).len();
                        let l = t.2;
                        assert(l.take(1) =~= Seq::<char>::empty().push(sep));
                        crate::token::lemma_encode_utf8_push(Seq::<char>::empty(), sep);
                        assert(vstd::utf8::encode_utf8(Seq::<char>::empty()) =~= Seq::<u8>::empty());
                        assert(l.take(1) + l.drop_first() =~= l);
                        lemma_byte_len_concat(l.take(1), l.drop_first());
                        lemma_wf_update_first(
                            ts,
                            (t.0, SourceLocation { start: (t.1.start + n) as u32, ..t.1 }, t.2.drop_first()),
                        );
                    }
                }
            },
        }
    }
}

/// Below `k`, the least index holding `sep`, if any.
proof fn lemma_least_index(s: Seq<char>, sep: char, k: int)
    requires
        0 <= k <= s.len(),
        exists|i: int| 0 <= i < k && s[i] == sep,
    ensures
        exists|i: int| 0 <= i < k && s[i] == sep && forall|j: int| 0 <= j < i ==> s[j] != sep,
    decreases k,
{
    if exists|i: int| 0 <= i < k - 1 && s[i] == sep {
        lemma_least_index(s, sep, k - 1);
    } else {
        assert(s[k - 1] == sep);
        assert(forall|j: int| 0 <= j < k - 1 ==> s[j] != sep);
    }
}

pub proof fn lemma_first_index_of(s: Seq<char>, sep: char)
    ensures
        first_index_of(s, sep) matches Some(i) ==> 0 <= i < s.len() && s[i] == sep
            && forall|j: int| 0 <= j < i ==> s[j] != sep,
{
    if exists|i: int| 0 <= i < s.len() && s[i] == sep {
        lemma_least_index(s, sep, s.len() as int);
    }
}

proof fn lemma_split_step(ts: Seq<TokenV>, embeddable: Option<char>)
    requires
        ts.len() > 0,
        stream_wf(ts),
        embeddable matches Some(sep) ==> (ts[0].0 == TokenKind::Word ==> ts[0].2[0] != sep),
    ensures
        stream_wf(split_front(ts, embeddable).1),
        units(split_front(ts, embeddable).1) < units(ts),
{
    let t = ts[0];
    match embeddable {
        Some(sep) => if t.0 == TokenKind::Word && first_index_of(t.2, sep) is Some {
            let i = first_index_of(t.2, sep)->0;
            lemma_first_index_of(t.2, sep);
            assert(i >= 1);
            let n = byte_len(t.2.take(i));
            assert(t.2.take(i) + t.2.skip(i) =~= t.2);
            lemma_byte_len_concat(t.2.take(i), t.2.skip(i));
            lemma_wf_update_first(ts, (t.0, SourceLocation { start: (t.1.start + n) as u32, ..t.1 }, t.2.skip(i)));
        } else {
            lemma_wf_drop_first(ts);
        },
        None => {
            lemma_wf_drop_first(ts);
        },
    }
}

/// What reading a cell has gathered: its tokens, where it ends, whether
/// columns are still being counted, and what was consumed last.
pub struct CellRead {
    pub tokens: Seq<TokenV>,
    pub end: int,
    pub counting: bool,
    pub last: DsvLastConsumed,
}

/// Reading the rest of a DSV cell from `ts` (with `fuel` steps at most):
/// what is left of the stream, and what was gathered. The cell ends at a
/// delimiter (consumed) or at the end of the stream. Each token taken joins
/// the cell, except a backslash, which stands for the token after it.
pub open spec fn dsv_cell(
    ts: Seq<TokenV>,
    sep: char,
    kind: Option<TokenKind>,
    embeddable: Option<char>,
    st: CellRead,
    fuel: nat,
) -> (Seq<TokenV>, CellRead)
    decreases fuel,
{
    if fuel == 0 || ts.len() == 0 {
        (ts, st)
    } else {
        let (hit, ts1, last) = dsv_delimiter(ts, sep, kind);
        let counting = st.counting && last != DsvLastConsumed::Newline;
        if hit {
            (ts1, CellRead { last, counting, ..st })
        } else {
            let (tok, ts2) = split_front(ts1, embeddable);
            let counting2 = counting && tok.0 != TokenKind::Newline;
            if tok.0 != TokenKind::Backslash {
                dsv_cell(ts2, sep, kind, embeddable, CellRead { tokens: st.tokens.push(tok), end: tok.1.end as int, counting: counting2, last }, (fuel - 1) as nat)
            } else if ts2.len() > 0 {
                dsv_cell(
                    ts2.drop_first(),
                    sep,
                    kind,
                    embeddable,
                    CellRead { tokens: st.tokens.push(ts2[0]), end: ts2[0].1.end as int, counting: counting2, last },
                    (fuel - 1) as nat,
                )
            } else {
                dsv_cell(ts2, sep, kind, embeddable, CellRead { end: tok.1.end as int, counting: counting2, last, ..st }, (fuel - 1) as nat)
            }
        }
    }
}

/// The tokens a cell is made from and the bytes it spans.
#[derive(Debug)]
pub struct CellTokens {
    pub tokens: Vec<Token>,
    pub start: u32,
    pub end: u32,
}

/// The state reading a cell starts from.
pub open spec fn cell_start(ctx: &TableContext, start: u32) -> CellRead {
    CellRead { tokens: seq![], end: start as int, counting: ctx.counting_cols, last: ctx.dsv_last_consumed }
}

impl Parser {
    /// Reads a DSV cell from `start` on: its tokens, up to the delimiter
    /// that ends it (consumed) or the end of the table, as `dsv_cell` says.
    /// These are what the cell is built from.
    pub fn finish_dsv_table_cell(&self, tokens: &mut TableTokens, ctx: &mut TableContext, start: u32) -> (r: CellTokens)
        requires
            stream_wf(old(tokens)@),
            separators_wf(old(ctx)),
        ensures
            ({
                let (rest, st) = dsv_cell(
                    old(tokens)@,
                    old(ctx).cell_separator,
                    old(ctx).cell_separator_tokenkind,
                    old(ctx).embeddable_cell_separator,
                    cell_start(old(ctx), start),
                    units(old(tokens)@),
                );
                &&& final(tokens)@ == rest
                &&& tokens_view(r.tokens@) == st.tokens
                &&& r.start == start
                &&& r.end == st.end
                &&& final(ctx).counting_cols == st.counting
                &&& final(ctx).dsv_last_consumed == st.last
            }),
            same_setup(old(ctx), final(ctx)),
    {
        let ghost orig = tokens@;
        let ghost sep = ctx.cell_separator;
        let ghost kind = ctx.cell_separator_tokenkind;
        let ghost emb = ctx.embeddable_cell_separator;
        let ghost mut fuel: nat = units(orig);
        let mut cell: Vec<Token> = Vec::new();
        let mut end = start;
        assert(tokens_view(cell@) =~= Seq::<TokenV>::empty());
        loop
            invariant_except_break
                dsv_cell(orig, sep, kind, emb, cell_start(old(ctx), start), units(orig)) == dsv_cell(
                    tokens@,
                    sep,
                    kind,
                    emb,
                    CellRead { tokens: tokens_view(cell@), end: end as int, counting: ctx.counting_cols, last: ctx.dsv_last_consumed },
                    fuel,
                ),
            invariant
                stream_wf(tokens@),
                separators_wf(ctx),
                same_setup(old(ctx), ctx),
                sep == ctx.cell_separator,
                kind == ctx.cell_separator_tokenkind,
                emb == ctx.embeddable_cell_separator,
                units(tokens@) <= fuel,
            ensures
                same_setup(old(ctx), ctx),
                dsv_cell(orig, sep, kind, emb, cell_start(old(ctx), start), units(orig)) == (
                    tokens@,
                    CellRead { tokens: tokens_view(cell@), end: end as int, counting: ctx.counting_cols, last: ctx.dsv_last_consumed },
                ),
            decreases fuel,
        {
            if tokens.is_empty() {
                break;
            }
            let ghost ts = tokens@;
            let ghost st = CellRead { tokens: tokens_view(cell@), end: end as int, counting: ctx.counting_cols, last: ctx.dsv_last_consumed };
            proof {
                lemma_delimiter_step(ts, sep, kind);
            }
            let hit = self.consume_dsv_delimiter(tokens, ctx);
            if hit {
                break;
            }
            proof {
                lemma_split_step(ts, emb);
            }
            let token = tokens.consume_splitting(ctx.embeddable_cell_separator).unwrap();
            let ghost split = split_front(ts, emb);
            assert(crate::line::token_view(token) == split.0);
            assert(tokens@ =~= split.1) by {
                if tokens@.len() == ts.len() {
                    assert forall|j: int| 1 <= j < ts.len() implies tokens@[j] == split.1[j] by {
                        assert(tokens@.drop_first()[j - 1] == ts.drop_first()[j - 1]);
                    }
                }
            }
            if token.kind == TokenKind::Newline {
                ctx.counting_cols = false;
            }
            end = token.loc.end;
            if token.kind != TokenKind::Backslash {
                let ghost before = cell@;
                cell.push(token);
                assert(tokens_view(cell@) =~= tokens_view(before).push(split.0));
            } else {
                proof {
                    if tokens@.len() > 0 {
                        lemma_wf_drop_first(tokens@);
                    }
                }
                if let Some(next) = tokens.consume_current() {
                    end = next.loc.end;
                    let ghost before = cell@;
                    cell.push(next);
                    assert(tokens_view(cell@) =~= tokens_view(before).push(split.1[0]));
                }
            }
            proof {
                fuel = (fuel - 1) as nat;
            }
        }
        CellTokens { tokens: cell, start, end }
    }
}

/// Whether a token is blank: whitespace or a newline.
pub open spec fn whitespaceish(k: TokenKind) -> bool {
    k == TokenKind::Whitespace || k == TokenKind::Newline
}

/// What reading a CSV cell has gathered: as for a DSV cell, and whether a
/// quote is open, and the errors reported.
pub struct CsvRead {
    pub cell: CellRead,
    pub quoted: bool,
    pub errors: Seq<Seq<char>>,
}

/// The message for a quote that is never closed.
pub open spec fn unclosed_quote_message() -> Seq<char> {
    "Unclosed CSV quote"@
}

/// The message for a quote inside an unquoted field.
pub open spec fn stray_quote_message() -> Seq<char> {
    "Double quote not allowed here, entire field must be quoted"@
}

/// Blank tokens after an opening quote are skipped; the cell starts after
/// the last one.
pub open spec fn skip_blank(ts: Seq<TokenV>, start: int) -> (Seq<TokenV>, int)
    decreases ts.len(),
{
    if ts.len() > 0 && whitespaceish(ts[0].0) {
        skip_blank(ts.drop_first(), ts[0].1.end as int)
    } else {
        (ts, start)
    }
}

/// How a CSV cell starts: an opening quote, and the blank tokens after it,
/// are consumed, and the cell starts after them.
pub open spec fn csv_open(ts: Seq<TokenV>, start: int) -> (Seq<TokenV>, int, bool) {
    if ts.len() > 0 && ts[0].0 == TokenKind::DoubleQuote {
        let (rest, s) = skip_blank(ts.drop_first(), ts[0].1.end as int);
        (rest, s, true)
    } else {
        (ts, start, false)
    }
}

/// One step of reading a CSV cell from a non-empty `ts`: whether the cell
/// ends there, and what is left and gathered. Outside quotes a delimiter
/// ends the cell (consumed) and a double quote is an error; inside them a
/// doubled quote stands for one quote and a single one closes them.
pub open spec fn csv_step(
    ts: Seq<TokenV>,
    sep: char,
    kind: Option<TokenKind>,
    embeddable: Option<char>,
    st: CsvRead,
) -> (bool, Seq<TokenV>, CsvRead) {
    let (hit, ts1, last) = if st.quoted {
        (false, ts, st.cell.last)
    } else {
        dsv_delimiter(ts, sep, kind)
    };
    let counting = st.cell.counting && (st.quoted || last != DsvLastConsumed::Newline);
    if hit {
        (true, ts1, CsvRead { cell: CellRead { last, counting, ..st.cell }, ..st })
    } else {
        let (tok, ts2) = split_front(ts1, embeddable);
        let c = CellRead { end: tok.1.end as int, counting: counting && tok.0 != TokenKind::Newline, last, ..st.cell };
        if tok.0 == TokenKind::DoubleQuote && !st.quoted {
            (false, ts2, CsvRead { cell: c, quoted: false, errors: st.errors.push(stray_quote_message()) })
        } else if tok.0 == TokenKind::DoubleQuote && !(ts2.len() > 0 && ts2[0].0 == TokenKind::DoubleQuote) {
            (false, ts2, CsvRead { cell: c, quoted: false, errors: st.errors })
        } else if tok.0 == TokenKind::DoubleQuote {
            (false, ts2.drop_first(), CsvRead { cell: CellRead { tokens: c.tokens.push(ts2[0]), ..c }, quoted: true, errors: st.errors })
        } else {
            (false, ts2, CsvRead { cell: CellRead { tokens: c.tokens.push(tok), ..c }, ..st })
        }
    }
}

/// Reading the rest of a CSV cell from `ts` (with `fuel` steps at most), a
/// `csv_step` at a time; at the end of the stream an open quote is an
/// error.
pub open spec fn csv_cell(
    ts: Seq<TokenV>,
    sep: char,
    kind: Option<TokenKind>,
    embeddable: Option<char>,
    st: CsvRead,
    fuel: nat,
) -> (Seq<TokenV>, CsvRead)
    decreases fuel,
{
    if ts.len() == 0 {
        (ts, with_unclosed_error(st))
    } else if fuel == 0 {
        (ts, st)
    } else {
        let (done, ts2, st2) = csv_step(ts, sep, kind, embeddable, st);
        if done {
            (ts2, st2)
        } else {
            csv_cell(ts2, sep, kind, embeddable, st2, (fuel - 1) as nat)
        }
    }
}

/// `st`, with the error for a quote left open where one is.
pub open spec fn with_unclosed_error(st: CsvRead) -> CsvRead {
    if st.quoted {
        CsvRead { errors: st.errors.push(unclosed_quote_message()), ..st }
    } else {
        st
    }
}

/// Inside quotes, a word in front that starts with a separator that can
/// stand inside words: splitting it would take nothing.
pub open spec fn stuck_in_quotes(ts: Seq<TokenV>, embeddable: Option<char>, quoted: bool) -> bool {
    quoted && (embeddable matches Some(e) && ts.len() > 0 && ts[0].0 == TokenKind::Word && ts[0].2.len() > 0
        && ts[0].2[0] == e)
}

/// Whether reading a CSV cell never gets stuck inside quotes.
pub open spec fn csv_quotes_split_ok(
    ts: Seq<TokenV>,
    sep: char,
    kind: Option<TokenKind>,
    embeddable: Option<char>,
    st: CsvRead,
    fuel: nat,
) -> bool
    decreases fuel,
{
    if ts.len() == 0 || fuel == 0 {
        true
    } else if stuck_in_quotes(ts, embeddable, st.quoted) {
        false
    } else {
        let (done, ts2, st2) = csv_step(ts, sep, kind, embeddable, st);
        done || csv_quotes_split_ok(ts2, sep, kind, embeddable, st2, (fuel - 1) as nat)
    }
}

/// The state a CSV cell's reading is in.
pub open spec fn csv_read(errors: Seq<String>, cell: Seq<Token>, end: u32, ctx: &TableContext, quoted: bool) -> CsvRead {
    CsvRead {
        cell: CellRead { tokens: tokens_view(cell), end: end as int, counting: ctx.counting_cols, last: ctx.dsv_last_consumed },
        quoted,
        errors: crate::tags::strings_view(errors),
    }
}

/// The state a CSV cell's reading starts in, once opened.
pub open spec fn csv_read_start(errors: Seq<String>, ctx: &TableContext, opened: (Seq<TokenV>, int, bool)) -> CsvRead {
    CsvRead {
        cell: CellRead { tokens: seq![], end: opened.1, counting: ctx.counting_cols, last: ctx.dsv_last_consumed },
        quoted: opened.2,
        errors: crate::tags::strings_view(errors),
    }
}

impl Parser {
    /// One `csv_step` of reading a CSV cell, on the state kept in `cell`,
    /// `end` and `quoted`.
    fn csv_step_exec(
        &mut self,
        tokens: &mut TableTokens,
        ctx: &mut TableContext,
        cell: &mut Vec<Token>,
        end: &mut u32,
        quoted: &mut bool,
    ) -> (done: bool)
        requires
            old(tokens)@.len() > 0,
            stream_wf(old(tokens)@),
            separators_wf(old(ctx)),
            !stuck_in_quotes(old(tokens)@, old(ctx).embeddable_cell_separator, *old(quoted)),
        ensures
            ({
                let (d, ts2, st2) = csv_step(
                    old(tokens)@,
                    old(ctx).cell_separator,
                    old(ctx).cell_separator_tokenkind,
                    old(ctx).embeddable_cell_separator,
                    csv_read(old(self).errors@, old(cell)@, *old(end), old(ctx), *old(quoted)),
                );
                &&& done == d
                &&& final(tokens)@ == ts2
                &&& csv_read(final(self).errors@, final(cell)@, *final(end), final(ctx), *final(quoted)) == st2
            }),
            stream_wf(final(tokens)@),
            units(final(tokens)@) < units(old(tokens)@),
            same_setup(old(ctx), final(ctx)),
            final(self).attrs == old(self).attrs,
    {
        let ghost ts = tokens@;
        let ghost emb = ctx.embeddable_cell_separator;
        if !*quoted {
            proof {
                lemma_delimiter_step(ts, ctx.cell_separator, ctx.cell_separator_tokenkind);
            }
            let hit = self.consume_dsv_delimiter(tokens, ctx);
            if hit {
                return true;
            }
        }
        proof {
            lemma_split_step(ts, emb);
        }
        let token = tokens.consume_splitting(ctx.embeddable_cell_separator).unwrap();
        let ghost split = split_front(ts, emb);
        assert(crate::line::token_view(token) == split.0);
        assert(tokens@ =~= split.1) by {
            if tokens@.len() == ts.len() {
                assert forall|j: int| 1 <= j < ts.len() implies tokens@[j] == split.1[j] by {
                    assert(tokens@.drop_first()[j - 1] == ts.drop_first()[j - 1]);
                }
            }
        }
        if token.kind == TokenKind::Newline {
            ctx.counting_cols = false;
        }
        *end = token.loc.end;
        if token.kind == TokenKind::DoubleQuote && !*quoted {
            let ghost before = self.errors@;
            self.errors.push(String::from_str("Double quote not allowed here, entire field must be quoted"));
            assert(crate::tags::strings_view(self.errors@) =~= crate::tags::strings_view(before).push(
                stray_quote_message(),
            ));
        } else if token.kind == TokenKind::DoubleQuote && !(tokens.current().is_some()
            && tokens.current().unwrap().kind == TokenKind::DoubleQuote) {
            *quoted = false;
        } else if token.kind == TokenKind::DoubleQuote {
            proof {
                lemma_wf_drop_first(tokens@);
            }
            let next = tokens.consume_current().unwrap();
            let ghost before = cell@;
            cell.push(next);
            assert(tokens_view(cell@) =~= tokens_view(before).push(split.1[0]));
            *quoted = true;
        } else {
            let ghost before = cell@;
            cell.push(token);
            assert(tokens_view(cell@) =~= tokens_view(before).push(split.0));
        }
        false
    }

    /// Reads a CSV cell from `start` on: its tokens, up to the delimiter
    /// that ends it outside quotes (consumed) or the end of the table, as
    /// `csv_open` and `csv_cell` say, reporting quotes out of place. These
    /// are what the cell is built from. Inputs on which the reading would
    /// get stuck inside quotes are left out.
    pub fn finish_csv_table_cell(&mut self, tokens: &mut TableTokens, ctx: &mut TableContext, start: u32) -> (r: CellTokens)
        requires
            stream_wf(old(tokens)@),
            separators_wf(old(ctx)),
            csv_quotes_split_ok(
                csv_open(old(tokens)@, start as int).0,
                old(ctx).cell_separator,
                old(ctx).cell_separator_tokenkind,
                old(ctx).embeddable_cell_separator,
                csv_read_start(old(self).errors@, old(ctx), csv_open(old(tokens)@, start as int)),
                units(old(tokens)@),
            ),
        ensures
            ({
                let opened = csv_open(old(tokens)@, start as int);
                let (rest, st) = csv_cell(
                    opened.0,
                    old(ctx).cell_separator,
                    old(ctx).cell_separator_tokenkind,
                    old(ctx).embeddable_cell_separator,
                    csv_read_start(old(self).errors@, old(ctx), opened),
                    units(old(tokens)@),
                );
                &&& final(tokens)@ == rest
                &&& tokens_view(r.tokens@) == st.cell.tokens
                &&& r.start == opened.1
                &&& r.end == st.cell.end
                &&& final(ctx).counting_cols == st.cell.counting
                &&& final(ctx).dsv_last_consumed == st.cell.last
                &&& crate::tags::strings_view(final(self).errors@) == st.errors
            }),
            same_setup(old(ctx), final(ctx)),
            final(self).attrs == old(self).attrs,
    {
        let ghost orig = tokens@;
        let ghost sep = ctx.cell_separator;
        let ghost kind = ctx.cell_separator_tokenkind;
        let ghost emb = ctx.embeddable_cell_separator;
        let mut start = start;
        let mut quoted = false;
        if tokens.current().is_some() && tokens.current().unwrap().kind == TokenKind::DoubleQuote {
            proof {
                lemma_wf_drop_first(tokens@);
            }
            let quote = tokens.consume_current().unwrap();
            start = quote.loc.end;
            quoted = true;
            while tokens.current().is_some() && (tokens.current().unwrap().kind == TokenKind::Whitespace
                || tokens.current().unwrap().kind == TokenKind::Newline)
                invariant
                    stream_wf(tokens@),
                    units(tokens@) < units(orig),
                    skip_blank(orig.drop_first(), orig[0].1.end as int) == skip_blank(tokens@, start as int),
                decreases tokens@.len(),
            {
                proof {
                    lemma_wf_drop_first(tokens@);
                }
                let t = tokens.consume_current().unwrap();
                start = t.loc.end;
            }
        }
        let ghost opened = csv_open(orig, start as int);
        assert(opened.0 == tokens@ && opened.1 == start && opened.2 == quoted);
        let ghost init = csv_read_start(old(self).errors@, old(ctx), opened);
        let ghost mut fuel: nat = units(orig);
        let mut cell: Vec<Token> = Vec::new();
        let mut end = start;
        assert(tokens_view(cell@) =~= Seq::<TokenV>::empty());
        assert(csv_read(self.errors@, cell@, end, ctx, quoted) == init);
        loop
            invariant_except_break
                csv_cell(opened.0, sep, kind, emb, init, units(orig)) == csv_cell(
                    tokens@,
                    sep,
                    kind,
                    emb,
                    csv_read(self.errors@, cell@, end, ctx, quoted),
                    fuel,
                ),
                csv_quotes_split_ok(tokens@, sep, kind, emb, csv_read(self.errors@, cell@, end, ctx, quoted), fuel),
            invariant
                stream_wf(tokens@),
                separators_wf(ctx),
                same_setup(old(ctx), ctx),
                sep == ctx.cell_separator,
                kind == ctx.cell_separator_tokenkind,
                emb == ctx.embeddable_cell_separator,
                units(tokens@) <= fuel,
                self.attrs == old(self).attrs,
            ensures
                same_setup(old(ctx), ctx),
                self.attrs == old(self).attrs,
                csv_cell(opened.0, sep, kind, emb, init, units(orig)) == (
                    tokens@,
                    with_unclosed_error(csv_read(self.errors@, cell@, end, ctx, quoted)),
                ),
            decreases fuel,
        {
            if tokens.is_empty() {
                break;
            }
            let done = self.csv_step_exec(tokens, ctx, &mut cell, &mut end, &mut quoted);
            proof {
                fuel = (fuel - 1) as nat;
            }
            if done {
                break;
            }
        }
        if quoted {
            let ghost before = self.errors@;
            self.errors.push(String::from_str("Unclosed CSV quote"));
            assert(crate::tags::strings_view(self.errors@) =~= crate::tags::strings_view(before).push(
                unclosed_quote_message(),
            ));
        }
        CellTokens { tokens: cell, start, end }
    }
}

/// Blank tokens before a cell are skipped: what is left, where the cell
/// starts, and whether a newline was among them.
pub open spec fn trim_blank(ts: Seq<TokenV>, start: int, newline: bool) -> (Seq<TokenV>, int, bool)
    decreases ts.len(),
{
    if ts.len() > 0 && whitespaceish(ts[0].0) {
        trim_blank(ts.drop_first(), ts[0].1.end as int, newline || ts[0].0 == TokenKind::Newline)
    } else {
        (ts, start, newline)
    }
}

/// What reading a cell of a DSV or CSV table gives.
#[derive(Debug)]
pub enum DsvCell {
    /// No tokens are left: there is no cell.
    NoCell,
    /// A delimiter followed by a newline: an empty cell starting there.
    EmptyCell(u32),
    /// The tokens of a cell.
    Read(CellTokens),
}

/// `ctx` once columns stop being counted where `stop` holds.
pub open spec fn stop_counting(ctx: TableContext, stop: bool) -> TableContext {
    TableContext { counting_cols: ctx.counting_cols && !stop, ..ctx }
}

impl Parser {
    /// Reads the next cell of a DSV or CSV table: blank tokens before it
    /// are skipped (a newline among them ends the counting of columns); a
    /// delimiter followed by a newline makes an empty cell; otherwise the
    /// cell is read as `finish_csv_table_cell` or `finish_dsv_table_cell`
    /// says, by the table's format.
    pub fn parse_dsv_table_cell(&mut self, tokens: &mut TableTokens, ctx: &mut TableContext) -> (r: DsvCell)
        requires
            stream_wf(old(tokens)@),
            separators_wf(old(ctx)),
            !(old(ctx).format is Prefix),
            old(tokens)@.len() > 0 ==> ({
                let t = trim_blank(old(tokens)@, old(tokens)@[0].1.start as int, false);
                let c = stop_counting(*old(ctx), t.2);
                old(ctx).format is Csv && !(c.dsv_last_consumed == DsvLastConsumed::Delimiter && t.2) ==> csv_quotes_split_ok(
                    csv_open(t.0, t.1).0,
                    c.cell_separator,
                    c.cell_separator_tokenkind,
                    c.embeddable_cell_separator,
                    csv_read_start(old(self).errors@, &c, csv_open(t.0, t.1)),
                    units(t.0),
                )
            }),
        ensures
            same_setup(old(ctx), final(ctx)),
            final(self).attrs == old(self).attrs,
            old(tokens)@.len() == 0 ==> r is NoCell && final(tokens)@ == old(tokens)@
                && final(self).errors == old(self).errors,
            old(tokens)@.len() > 0 ==> ({
                let t = trim_blank(old(tokens)@, old(tokens)@[0].1.start as int, false);
                let c = stop_counting(*old(ctx), t.2);
                if c.dsv_last_consumed == DsvLastConsumed::Delimiter && t.2 {
                    &&& r == DsvCell::EmptyCell(t.1 as u32)
                    &&& final(tokens)@ == t.0
                    &&& final(ctx).counting_cols == c.counting_cols
                    &&& final(ctx).dsv_last_consumed == c.dsv_last_consumed
                    &&& final(self).errors == old(self).errors
                } else if old(ctx).format is Csv {
                    let opened = csv_open(t.0, t.1);
                    let (rest, st) = csv_cell(
                        opened.0,
                        c.cell_separator,
                        c.cell_separator_tokenkind,
                        c.embeddable_cell_separator,
                        csv_read_start(old(self).errors@, &c, opened),
                        units(t.0),
                    );
                    &&& r matches DsvCell::Read(cell) && tokens_view(cell.tokens@) == st.cell.tokens
                        && cell.start == opened.1 && cell.end == st.cell.end
                    &&& final(tokens)@ == rest
                    &&& final(ctx).counting_cols == st.cell.counting
                    &&& final(ctx).dsv_last_consumed == st.cell.last
                    &&& crate::tags::strings_view(final(self).errors@) == st.errors
                } else {
                    let (rest, st) = dsv_cell(
                        t.0,
                        c.cell_separator,
                        c.cell_separator_tokenkind,
                        c.embeddable_cell_separator,
                        cell_start(&c, t.1 as u32),
                        units(t.0),
                    );
                    &&& r matches DsvCell::Read(cell) && tokens_view(cell.tokens@) == st.tokens
                        && cell.start == t.1 && cell.end == st.end
                    &&& final(tokens)@ == rest
                    &&& final(ctx).counting_cols == st.counting
                    &&& final(ctx).dsv_last_consumed == st.last
                    &&& final(self).errors == old(self).errors
                }
            }),
    {
        if tokens.is_empty() {
            return DsvCell::NoCell;
        }
        let ghost orig = tokens@;
        let mut start = tokens.current().unwrap().loc.start;
        let mut trimmed_newline = false;
        let ghost counting0 = ctx.counting_cols;
        while tokens.current().is_some() && (tokens.current().unwrap().kind == TokenKind::Whitespace
            || tokens.current().unwrap().kind == TokenKind::Newline)
            invariant
                stream_wf(tokens@),
                trim_blank(orig, orig[0].1.start as int, false) == trim_blank(tokens@, start as int, trimmed_newline),
                ctx.counting_cols == (counting0 && !trimmed_newline),
                same_setup(old(ctx), ctx),
                ctx.dsv_last_consumed == old(ctx).dsv_last_consumed,
                separators_wf(ctx),
                units(tokens@) <= units(orig),
            decreases tokens@.len(),
        {
            proof {
                lemma_wf_drop_first(tokens@);
            }
            let trimmed = tokens.consume_current().unwrap();
            start = trimmed.loc.end;
            if trimmed.kind == TokenKind::Newline {
                trimmed_newline = true;
                ctx.counting_cols = false;
            }
        }
        if ctx.dsv_last_consumed == DsvLastConsumed::Delimiter && trimmed_newline {
            return DsvCell::EmptyCell(start);
        }
        match ctx.format {
            DataFormat::Csv(_) => DsvCell::Read(self.finish_csv_table_cell(tokens, ctx, start)),
            _ => DsvCell::Read(self.finish_dsv_table_cell(tokens, ctx, start)),
        }
    }
}

/// Whether a table's first row turns out to be an implicit header: while
/// that is still unknown, a cell was made, it ended at a newline, and
/// another newline follows.
pub open spec fn implicit_header_found(ctx: &TableContext, next: Seq<TokenV>, made_cell: bool) -> bool {
    &&& ctx.header_row == crate::table::HeaderRow::Unknown
    &&& made_cell
    &&& ctx.dsv_last_consumed == DsvLastConsumed::Newline
    &&& next.len() > 0 && next[0].0 == TokenKind::Newline
}

/// Records an implicit header row after a DSV or CSV cell, as
/// `implicit_header_found` says.
pub fn note_implicit_header_row(ctx: &mut TableContext, tokens: &TableTokens, made_cell: bool)
    ensures
        final(ctx).header_row == if implicit_header_found(old(ctx), tokens@, made_cell) {
            crate::table::HeaderRow::FoundImplicit
        } else {
            old(ctx).header_row
        },
        final(ctx).counting_cols == old(ctx).counting_cols,
        final(ctx).dsv_last_consumed == old(ctx).dsv_last_consumed,
        final(ctx).cell_separator == old(ctx).cell_separator,
{
    if ctx.header_row.is_unknown() && made_cell && ctx.dsv_last_consumed == DsvLastConsumed::Newline
        && tokens.current().is_some() && tokens.current().unwrap().kind == TokenKind::Newline {
        ctx.header_row = crate::table::HeaderRow::FoundImplicit;
    }
}

} // verus!
