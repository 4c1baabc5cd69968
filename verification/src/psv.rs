//! Reading the cells of prefix-separated (PSV) tables from their tokens: a
//! cell start with its specifier, then the tokens up to the next cell start.
use vstd::prelude::*;
use vstd::string::StringExecFns;

use crate::csv_terms::TokenV;
use crate::dsv::{split_front, units, CellTokens};
use crate::line::{byte_len, tokens_view};
use crate::parser::Parser;
use crate::table::{TableContext, TableTokens};
use crate::table_spec::{after_cell_start, cell_start, empty_cell_spec, starts_fit, CellSpec};
use crate::token::{Token, TokenKind};

verus! {

/// Dropping `k` tokens drops at least `k` from the count of chars.
proof fn lemma_units_skip(t: Seq<TokenV>, k: int)
    requires
        0 <= k <= t.len(),
    ensures
        units(t.skip(k)) + k <= units(t),
    decreases k,
{
    if k > 0 {
        lemma_units_skip(t, k - 1);
        let x = t.skip(k - 1);
        assert(x.drop_first() =~= t.skip(k));
        assert(units(x) == x[0].2.len() + 1 + units(x.drop_first()));
    } else {
        assert(t.skip(0) =~= t);
    }
}

/// Consuming a cell start takes at least one char.
pub proof fn lemma_cell_start_progress(t: Seq<TokenV>, sep: char)
    requires
        cell_start(t, sep) is Some,
    ensures
        units(after_cell_start(t, cell_start(t, sep)->0)) < units(t),
{
    let cs = cell_start(t, sep)->0;
    let k = cs.drop_tokens as int;
    if t[0].2[0] == sep {
        if byte_len(t[0].2) == crate::table_spec::sep_len(sep) {
            lemma_units_skip(t, 1);
        } else {
            if t[0].2.len() == 1 {
                assert(t[0].2 =~= seq![sep]);
                assert(t[0].2 =~= Seq::<char>::empty().push(sep));
                crate::token::lemma_encode_utf8_push(Seq::<char>::empty(), sep);
                assert(vstd::utf8::encode_utf8(Seq::<char>::empty()) =~= Seq::<u8>::empty());
            }
            assert(t.skip(0) =~= t);
            let rest = t.skip(0);
            let tok = rest[0];
            crate::dsv::lemma_units_update_first_pub(
                rest,
                (tok.0, crate::token::SourceLocation { start: (tok.1.start + cs.drop_bytes) as u32, ..tok.1 }, tok.2.skip(1)),
            );
        }
    } else {
        lemma_units_skip(t, k);
        if cs.drop_bytes != 0 {
            let rest = t.skip(k);
            let tok = rest[0];
            crate::dsv::lemma_units_update_first_pub(
                rest,
                (tok.0, crate::token::SourceLocation { start: (tok.1.start + cs.drop_bytes) as u32, ..tok.1 }, tok.2.skip(2)),
            );
        }
    }
}

/// What reading a PSV cell has gathered: its tokens, where it ends, and
/// whether columns are still being counted.
pub struct PsvRead {
    pub cell: Seq<TokenV>,
    pub end: int,
    pub counting: bool,
}

/// The front token can be taken apart: a word is not empty, and it ends
/// within the range of `u32`.
pub open spec fn front_splittable(ts: Seq<TokenV>) -> bool {
    &&& ts.len() > 0
    &&& ts[0].0 == TokenKind::Word ==> ts[0].2.len() > 0
    &&& ts[0].1.start + byte_len(ts[0].2) <= u32::MAX
}

/// One step of gathering a PSV cell's tokens: it ends where a cell starts
/// or the tokens end; otherwise a token is taken (split at a separator
/// inside a word), and a backslash right before a cell start stands for the
/// token after it.
pub open spec fn psv_step(ts: Seq<TokenV>, sep: char, embeddable: Option<char>, st: PsvRead) -> (bool, Seq<TokenV>, PsvRead) {
    if ts.len() == 0 || cell_start(ts, sep) is Some {
        (true, ts, st)
    } else {
        let (tok, ts2) = split_front(ts, embeddable);
        let counting = st.counting && tok.0 != TokenKind::Newline;
        if tok.0 != TokenKind::Backslash || cell_start(ts2, sep) is None {
            (false, ts2, PsvRead { cell: st.cell.push(tok), end: tok.1.end as int, counting })
        } else {
            (false, ts2.drop_first(), PsvRead { cell: st.cell.push(ts2[0]), end: ts2[0].1.end as int, counting })
        }
    }
}

/// Gathering a PSV cell's tokens, a `psv_step` at a time (`fuel` steps at
/// most).
pub open spec fn psv_gather(ts: Seq<TokenV>, sep: char, embeddable: Option<char>, st: PsvRead, fuel: nat) -> (Seq<TokenV>, PsvRead)
    decreases fuel,
{
    if fuel == 0 {
        (ts, st)
    } else {
        let (done, ts2, st2) = psv_step(ts, sep, embeddable, st);
        if done {
            (ts2, st2)
        } else {
            psv_gather(ts2, sep, embeddable, st2, (fuel - 1) as nat)
        }
    }
}

/// Every step of gathering meets tokens with offsets that leave room for a
/// cell start, and a front token that can be taken apart.
pub open spec fn psv_gather_ok(ts: Seq<TokenV>, sep: char, embeddable: Option<char>, st: PsvRead, fuel: nat) -> bool
    decreases fuel,
{
    &&& starts_fit(ts)
    &&& (fuel == 0 || ts.len() == 0 || cell_start(ts, sep) is Some || {
        &&& front_splittable(ts)
        &&& starts_fit(split_front(ts, embeddable).1)
        &&& psv_gather_ok(psv_step(ts, sep, embeddable, st).1, sep, embeddable, psv_step(ts, sep, embeddable, st).2, (fuel - 1) as nat)
    })
}

/// Whitespace before a cell's content is skipped; the content starts after
/// it.
pub open spec fn trim_ws(ts: Seq<TokenV>, start: int) -> (Seq<TokenV>, int)
    decreases ts.len(),
{
    if ts.len() > 0 && ts[0].0 == TokenKind::Whitespace {
        trim_ws(ts.drop_first(), ts[0].1.end as int)
    } else {
        (ts, start)
    }
}

/// The message for a cell that does not start with the separator.
pub open spec fn expected_sep_message(sep: char) -> Seq<char> {
    "Expected cell separator `"@ + seq![sep] + "`"@
}

/// The message for a cell spanning more columns than the table has.
pub open spec fn span_message(span: u8, num_cols: usize) -> Seq<char> {
    "Cell column span ("@ + crate::text::decimal(span as nat) + ") exceeds number of columns ("@
        + crate::text::decimal(num_cols as nat) + ")"@
}

/// Whether a cell is dropped: once the columns are counted, its column span
/// exceeds their number (taken as a `u8`).
pub open spec fn span_too_wide(spec: CellSpec, counting: bool, num_cols: usize) -> bool {
    !counting && match spec.col_span {
        Some(n) => n > (num_cols as u8),
        None => false,
    }
}

/// How a PSV cell begins, read from a non-empty `ts`: its specifier (from
/// the cell start consumed, or the default one, reported, where none is),
/// the offset after the cell start, the tokens and content start once
/// whitespace is skipped, the errors, and whether the cell is dropped for
/// spanning too many columns (reported).
pub struct PsvHead {
    pub spec: CellSpec,
    pub start: int,
    pub rest: Seq<TokenV>,
    pub content_start: int,
    pub errors: Seq<Seq<char>>,
    pub drop: bool,
}

pub open spec fn psv_head(ts: Seq<TokenV>, fsep: char, counting: bool, num_cols: usize, errors: Seq<Seq<char>>) -> PsvHead {
    let (spec, start, ts1, e1) = match cell_start(ts, fsep) {
        Some(cs) => (cs.spec, cs.resuming as int, after_cell_start(ts, cs), errors),
        None => (empty_cell_spec(), ts[0].1.start as int, ts, errors.push(expected_sep_message(fsep))),
    };
    let drop = span_too_wide(spec, counting, num_cols);
    let e2 = if drop {
        e1.push(span_message(spec.col_span->0, num_cols))
    } else {
        e1
    };
    let (ts2, start2) = trim_ws(ts1, start);
    PsvHead { spec, start, rest: ts2, content_start: start2, errors: e2, drop }
}

/// What reading a PSV cell gives: the tokens left, the cell (specifier,
/// where its content starts, what was gathered), the errors, and whether
/// columns are still counted.
pub struct PsvOutcome {
    pub rest: Seq<TokenV>,
    pub cell: Option<(CellSpec, int, PsvRead)>,
    pub errors: Seq<Seq<char>>,
    pub counting: bool,
}

/// Reading the next PSV cell (`fuel` cells at most). Without tokens there is
/// none. A cell start is consumed, or reported missing (the cell then has
/// the default specifier); whitespace is skipped and the tokens gathered. A
/// cell spanning too many columns is reported and dropped, and the next one
/// read in its place.
pub open spec fn psv_cell(
    ts: Seq<TokenV>,
    csep: char,
    fsep: char,
    embeddable: Option<char>,
    counting: bool,
    num_cols: usize,
    errors: Seq<Seq<char>>,
    fuel: nat,
) -> PsvOutcome
    decreases fuel,
{
    if ts.len() == 0 {
        PsvOutcome { rest: ts, cell: None, errors, counting }
    } else {
        let h = psv_head(ts, fsep, counting, num_cols, errors);
        let (ts3, rd) = psv_gather(h.rest, csep, embeddable, PsvRead { cell: seq![], end: h.start, counting }, fuel);
        if h.drop {
            if fuel == 0 {
                PsvOutcome { rest: ts3, cell: None, errors: h.errors, counting: rd.counting }
            } else {
                psv_cell(ts3, csep, fsep, embeddable, rd.counting, num_cols, h.errors, (fuel - 1) as nat)
            }
        } else {
            PsvOutcome { rest: ts3, cell: Some((h.spec, h.content_start, rd)), errors: h.errors, counting: rd.counting }
        }
    }
}

/// Every call reading PSV cells makes is within its bounds: see
/// `psv_gather_ok`, and a cell start is looked for only where offsets leave
/// room for it.
pub open spec fn psv_cell_ok(
    ts: Seq<TokenV>,
    csep: char,
    fsep: char,
    embeddable: Option<char>,
    counting: bool,
    num_cols: usize,
    fuel: nat,
) -> bool
    decreases fuel,
{
    ts.len() == 0 || {
        let h = psv_head(ts, fsep, counting, num_cols, Seq::empty());
        let st = PsvRead { cell: seq![], end: h.start, counting };
        let (ts3, rd) = psv_gather(h.rest, csep, embeddable, st, fuel);
        &&& starts_fit(ts)
        &&& psv_gather_ok(h.rest, csep, embeddable, st, fuel)
        &&& (h.drop && fuel > 0 ==> psv_cell_ok(ts3, csep, fsep, embeddable, rd.counting, num_cols, (fuel - 1) as nat))
    }
}

/// Taking the front token apart takes at least one char.
proof fn lemma_psv_split_progress(ts: Seq<TokenV>, sep: char, embeddable: Option<char>)
    requires
        front_splittable(ts),
        cell_start(ts, sep) is None,
        embeddable matches Some(e) ==> e == sep,
    ensures
        units(split_front(ts, embeddable).1) < units(ts),
{
    let t = ts[0];
    match embeddable {
        Some(e) => if t.0 == TokenKind::Word && crate::table::first_index_of(t.2, e) is Some {
            let i = crate::table::first_index_of(t.2, e)->0;
            crate::dsv::lemma_first_index_of(t.2, e);
            assert(i >= 1);
            let n = byte_len(t.2.take(i));
            crate::dsv::lemma_units_update_first_pub(
                ts,
                (t.0, crate::token::SourceLocation { start: (t.1.start + n) as u32, ..t.1 }, t.2.skip(i)),
            );
        } else {
            assert(units(ts) == t.2.len() + 1 + units(ts.drop_first()));
        },
        None => {
            assert(units(ts) == t.2.len() + 1 + units(ts.drop_first()));
        },
    }
}

/// The state gathering is in.
pub open spec fn psv_read(cell: Seq<Token>, end: u32, counting: bool) -> PsvRead {
    PsvRead { cell: tokens_view(cell), end: end as int, counting }
}

impl Parser {
    /// Gathers a PSV cell's tokens from `start` on, as `psv_gather` says.
    fn psv_gather_exec(&self, tokens: &mut TableTokens, ctx: &mut TableContext, start: u32, Ghost(fuel): Ghost<nat>) -> (r: (
        Vec<Token>,
        u32,
    ))
        requires
            units(old(tokens)@) <= fuel,
            crate::dsv::separators_wf(old(ctx)),
            psv_gather_ok(old(tokens)@, old(ctx).cell_separator, old(ctx).embeddable_cell_separator, psv_read(seq![], start, old(ctx).counting_cols), fuel),
        ensures
            psv_gather(
                old(tokens)@,
                old(ctx).cell_separator,
                old(ctx).embeddable_cell_separator,
                psv_read(seq![], start, old(ctx).counting_cols),
                fuel,
            ) == (final(tokens)@, psv_read(r.0@, r.1, final(ctx).counting_cols)),
            units(final(tokens)@) <= units(old(tokens)@),
            crate::dsv::same_setup(old(ctx), final(ctx)),
            final(ctx).dsv_last_consumed == old(ctx).dsv_last_consumed,
            crate::dsv::separators_wf(final(ctx)),
    {
        let ghost orig = tokens@;
        let ghost sep = ctx.cell_separator;
        let ghost emb = ctx.embeddable_cell_separator;
        let ghost init = psv_read(seq![], start, ctx.counting_cols);
        let ghost mut f: nat = fuel;
        let mut cell: Vec<Token> = Vec::new();
        let mut end = start;
        assert(psv_read(cell@, end, ctx.counting_cols) == init);
        loop
            invariant_except_break
                psv_gather(orig, sep, emb, init, fuel) == psv_gather(tokens@, sep, emb, psv_read(cell@, end, ctx.counting_cols), f),
                psv_gather_ok(tokens@, sep, emb, psv_read(cell@, end, ctx.counting_cols), f),
            invariant
                units(tokens@) <= f,
                units(tokens@) <= units(orig),
                crate::dsv::separators_wf(ctx),
                crate::dsv::same_setup(old(ctx), ctx),
                ctx.dsv_last_consumed == old(ctx).dsv_last_consumed,
                sep == ctx.cell_separator,
                emb == ctx.embeddable_cell_separator,
            ensures
                psv_gather(orig, sep, emb, init, fuel) == (tokens@, psv_read(cell@, end, ctx.counting_cols)),
                units(tokens@) <= units(orig),
                crate::dsv::separators_wf(ctx),
                crate::dsv::same_setup(old(ctx), ctx),
                ctx.dsv_last_consumed == old(ctx).dsv_last_consumed,
            decreases f,
        {
            let ghost ts = tokens@;
            let ghost st = psv_read(cell@, end, ctx.counting_cols);
            if self.starts_psv_cell(tokens, ctx.cell_separator) {
                break;
            }
            if tokens.is_empty() {
                break;
            }
            proof {
                lemma_psv_split_progress(ts, sep, emb);
                if let Some(e) = emb {
                    if ts[0].0 == TokenKind::Word {
                        assert(ts[0].2[0] != sep);
                    }
                }
            }
            let token = tokens.consume_splitting(ctx.embeddable_cell_separator).unwrap();
            let ghost split = split_front(ts, emb);
            assert(crate::line::token_view(token) == split.0);
            assert(tokens@ =~= split.1) by {
                if tokens@.len() == ts.len() {
                    assert forall|j: int| 1 <= j < ts.len() implies tokens@[j] == split.1[j] by {
                        assert(tokens@.drop_first()[j - 1] == ts.drop_first()[j - 1]);
                    }
                }
            }
            if ctx.counting_cols && token.kind == TokenKind::Newline {
                ctx.counting_cols = false;
            }
            end = token.loc.end;
            if token.kind != TokenKind::Backslash || !self.starts_psv_cell(tokens, ctx.cell_separator) {
                let ghost before = cell@;
                cell.push(token);
                assert(tokens_view(cell@) =~= tokens_view(before).push(split.0));
            } else {
                proof {
                    assert(units(tokens@) == tokens@[0].2.len() + 1 + units(tokens@.drop_first()));
                }
                let next = tokens.consume_current().unwrap();
                end = next.loc.end;
                let ghost before = cell@;
                cell.push(next);
                assert(tokens_view(cell@) =~= tokens_view(before).push(split.1[0]));
            }
            proof {
                f = (f - 1) as nat;
            }
        }
        (cell, end)
    }
}

/// What `psv_cell` gives, as the exec values stand.
pub open spec fn psv_outcome_is(
    o: PsvOutcome,
    r: Option<(CellSpec, CellTokens)>,
    rest: Seq<TokenV>,
    errors: Seq<String>,
    counting: bool,
) -> bool {
    &&& rest == o.rest
    &&& crate::tags::strings_view(errors) == o.errors
    &&& counting == o.counting
    &&& match o.cell {
        None => r is None,
        Some((spec, start, rd)) => r matches Some((s, c)) && s == spec && c.start as int == start && tokens_view(c.tokens@)
            == rd.cell && c.end as int == rd.end,
    }
}

/// Whitespace skipped takes no chars away from what follows.
proof fn lemma_trim_ws_units(ts: Seq<TokenV>, start: int)
    ensures
        units(trim_ws(ts, start).0) <= units(ts),
    decreases ts.len(),
{
    if ts.len() > 0 && ts[0].0 == TokenKind::Whitespace {
        lemma_trim_ws_units(ts.drop_first(), ts[0].1.end as int);
        assert(units(ts) == ts[0].2.len() + 1 + units(ts.drop_first()));
    }
}

impl Parser {
    /// Reads how a PSV cell begins, as `psv_head` says.
    fn psv_cell_head(&mut self, tokens: &mut TableTokens, ctx: &TableContext) -> (r: (CellSpec, u32, u32, bool))
        requires
            old(tokens)@.len() > 0,
            starts_fit(old(tokens)@),
        ensures
            ({
                let h = psv_head(
                    old(tokens)@,
                    crate::table::separator_of(ctx.format),
                    ctx.counting_cols,
                    ctx.num_cols,
                    crate::tags::strings_view(old(self).errors@),
                );
                &&& r.0 == h.spec
                &&& r.1 as int == h.start
                &&& r.2 as int == h.content_start
                &&& r.3 == h.drop
                &&& final(tokens)@ == h.rest
                &&& crate::tags::strings_view(final(self).errors@) == h.errors
            }),
            units(final(tokens)@) <= units(old(tokens)@),
            r.0.col_span is Some ==> units(final(tokens)@) < units(old(tokens)@),
            final(self).attrs == old(self).attrs,
    {
        let ghost ts = tokens@;
        let fsep = ctx.format.separator();
        let (spec, start) = match self.consume_cell_start(tokens, fsep) {
            Some(x) => {
                proof {
                    lemma_cell_start_progress(ts, fsep);
                }
                x
            },
            None => {
                let mut sv: Vec<char> = Vec::new();
                sv.push(fsep);
                assert(sv@ =~= seq![fsep]);
                let msg = String::from_str("Expected cell separator `").concat(
                    crate::text::string_of(sv.as_slice()).as_str(),
                ).concat("`");
                let ghost before = self.errors@;
                self.errors.push(msg);
                assert(crate::tags::strings_view(self.errors@) =~= crate::tags::strings_view(before).push(
                    expected_sep_message(fsep),
                ));
                (CellSpec::default(), tokens.current().unwrap().loc.start)
            },
        };
        let n = match spec.col_span {
            Some(n) => n,
            None => 0,
        };
        let drop_invalid = !ctx.counting_cols && n > (ctx.num_cols as u8);
        if drop_invalid {
            let span = crate::text::decimal_string_u64(n as u64);
            let cols = crate::text::decimal_string_u64(ctx.num_cols as u64);
            let msg = String::from_str("Cell column span (").concat(crate::text::string_of(span.as_slice()).as_str()).concat(
                ") exceeds number of columns (",
            ).concat(crate::text::string_of(cols.as_slice()).as_str()).concat(")");
            let ghost before = self.errors@;
            self.errors.push(msg);
            assert(crate::tags::strings_view(self.errors@) =~= crate::tags::strings_view(before).push(
                span_message(spec.col_span->0, ctx.num_cols),
            ));
        }
        let mut content_start = start;
        let ghost ts1 = tokens@;
        while tokens.current().is_some() && tokens.current().unwrap().kind == TokenKind::Whitespace
            invariant
                trim_ws(ts1, start as int) == trim_ws(tokens@, content_start as int),
                units(tokens@) <= units(ts1),
            decreases tokens@.len(),
        {
            proof {
                assert(units(tokens@) == tokens@[0].2.len() + 1 + units(tokens@.drop_first()));
            }
            let t = tokens.consume_current().unwrap();
            content_start = t.loc.end;
        }
        assert(trim_ws(tokens@, content_start as int) == (tokens@, content_start as int));
        (spec, start, content_start, drop_invalid)
    }

    /// Reads the next PSV cell, as `psv_cell` says, with at most `fuel`
    /// cells read.
    #[verifier::rlimit(60)]
    fn psv_cell_inner(&mut self, tokens: &mut TableTokens, ctx: &mut TableContext, Ghost(fuel): Ghost<nat>) -> (r: Option<
        (CellSpec, CellTokens),
    >)
        requires
            units(old(tokens)@) <= fuel,
            crate::dsv::separators_wf(old(ctx)),
            psv_cell_ok(
                old(tokens)@,
                old(ctx).cell_separator,
                crate::table::separator_of(old(ctx).format),
                old(ctx).embeddable_cell_separator,
                old(ctx).counting_cols,
                old(ctx).num_cols,
                fuel,
            ),
        ensures
            psv_outcome_is(
                psv_cell(
                    old(tokens)@,
                    old(ctx).cell_separator,
                    crate::table::separator_of(old(ctx).format),
                    old(ctx).embeddable_cell_separator,
                    old(ctx).counting_cols,
                    old(ctx).num_cols,
                    crate::tags::strings_view(old(self).errors@),
                    fuel,
                ),
                r,
                final(tokens)@,
                final(self).errors@,
                final(ctx).counting_cols,
            ),
            crate::dsv::same_setup(old(ctx), final(ctx)),
            final(ctx).dsv_last_consumed == old(ctx).dsv_last_consumed,
            final(self).attrs == old(self).attrs,
        decreases fuel,
    {
        if tokens.is_empty() {
            return None;
        }
        let ghost ts = tokens@;
        let (spec, start, content_start, drop_invalid) = self.psv_cell_head(tokens, ctx);
        proof {
            let h = psv_head(ts, crate::table::separator_of(ctx.format), ctx.counting_cols, ctx.num_cols, Seq::empty());
            let h2 = psv_head(ts, crate::table::separator_of(ctx.format), ctx.counting_cols, ctx.num_cols, crate::tags::strings_view(old(self).errors@));
            assert(h.rest == h2.rest && h.start == h2.start && h.drop == h2.drop);
        }
        proof {
            assert(tokens_view(Seq::<Token>::empty()) =~= Seq::<TokenV>::empty());
            assert(psv_read(seq![], start, ctx.counting_cols) == PsvRead { cell: seq![], end: start as int, counting: ctx.counting_cols });
        }
        let (cell, end) = self.psv_gather_exec(tokens, ctx, start, Ghost(fuel));
        if drop_invalid {
            proof {
                assert(spec.col_span is Some);
            }
            return self.psv_cell_inner(tokens, ctx, Ghost((fuel - 1) as nat));
        }
        Some((spec, CellTokens { tokens: cell, start: content_start, end }))
    }

    /// Reads the next cell of a PSV table: `None` where no tokens are left;
    /// otherwise its specifier and tokens, as `psv_cell` says.
    pub fn parse_psv_table_cell(&mut self, tokens: &mut TableTokens, ctx: &mut TableContext) -> (r: Option<
        (CellSpec, CellTokens),
    >)
        requires
            crate::dsv::separators_wf(old(ctx)),
            psv_cell_ok(
                old(tokens)@,
                old(ctx).cell_separator,
                crate::table::separator_of(old(ctx).format),
                old(ctx).embeddable_cell_separator,
                old(ctx).counting_cols,
                old(ctx).num_cols,
                units(old(tokens)@),
            ),
        ensures
            psv_outcome_is(
                psv_cell(
                    old(tokens)@,
                    old(ctx).cell_separator,
                    crate::table::separator_of(old(ctx).format),
                    old(ctx).embeddable_cell_separator,
                    old(ctx).counting_cols,
                    old(ctx).num_cols,
                    crate::tags::strings_view(old(self).errors@),
                    units(old(tokens)@),
                ),
                r,
                final(tokens)@,
                final(self).errors@,
                final(ctx).counting_cols,
            ),
            crate::dsv::same_setup(old(ctx), final(ctx)),
            final(self).attrs == old(self).attrs,
    {
        self.psv_cell_inner(tokens, ctx, Ghost(units(tokens@)))
    }
}

} // verus!
