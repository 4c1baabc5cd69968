//! A table's rows as they are read: the header row (explicit, or found in
//! the first row), the body rows and the footer row. A cell keeps its
//! specifier, column spec, content style and the tokens its content is
//! read from.
use vstd::prelude::*;

use crate::line::{token_view, tokens_view};
use crate::table::{HeaderRow, ParseCellData, TableContext};
use crate::table_spec::{CellContentStyle, CellSpec, ColSpec, ColWidth, TokenView};
use crate::token::Token;

verus! {

/// A table cell.
#[derive(Debug)]
pub struct TableCell {
    pub spec: CellSpec,
    pub col_spec: Option<ColSpec>,
    pub style: CellContentStyle,
    pub tokens: Vec<Token>,
}

/// A table: its column widths and its rows.
#[derive(Debug)]
pub struct Table {
    pub col_widths: Vec<ColWidth>,
    pub header_row: Option<Vec<TableCell>>,
    pub rows: Vec<Vec<TableCell>>,
    pub footer_row: Option<Vec<TableCell>>,
}

pub open spec fn cell_view(c: TableCell) -> (CellSpec, Option<ColSpec>, CellContentStyle, Seq<TokenView>) {
    (c.spec, c.col_spec, c.style, tokens_view(c.tokens@))
}

pub open spec fn row_view(r: Seq<TableCell>) -> Seq<(CellSpec, Option<ColSpec>, CellContentStyle, Seq<TokenView>)> {
    r.map_values(|c: TableCell| cell_view(c))
}

pub open spec fn rows_view(rs: Seq<Vec<TableCell>>) -> Seq<
    Seq<(CellSpec, Option<ColSpec>, CellContentStyle, Seq<TokenView>)>,
> {
    rs.map_values(|r: Vec<TableCell>| row_view(r@))
}

pub open spec fn opt_row_view(r: Option<Vec<TableCell>>) -> Option<
    Seq<(CellSpec, Option<ColSpec>, CellContentStyle, Seq<TokenView>)>,
> {
    match r {
        Some(v) => Some(row_view(v@)),
        None => None,
    }
}

/// A cell's tokens kept for reparsing, as the specifications see it.
pub open spec fn data_view(d: ParseCellData) -> (CellSpec, Option<ColSpec>, Seq<TokenView>) {
    (d.cell_spec, d.col_spec, tokens_view(d.cell_tokens@))
}

pub open spec fn datas_view(d: Seq<ParseCellData>) -> Seq<(CellSpec, Option<ColSpec>, Seq<TokenView>)> {
    d.map_values(|x: ParseCellData| data_view(x))
}

/// Whether a cell's content is reparsed from its kept tokens once it turns
/// out to be a header cell.
pub open spec fn kept_for_reparse(style: CellContentStyle) -> bool {
    style == CellContentStyle::AsciiDoc || style == CellContentStyle::Literal
}

/// How many of the cells are reparsed.
pub open spec fn reparse_count(row: Seq<(CellSpec, Option<ColSpec>, CellContentStyle, Seq<TokenView>)>) -> nat
    decreases row.len(),
{
    if row.len() == 0 {
        0
    } else {
        reparse_count(row.drop_first()) + if kept_for_reparse(row[0].2) {
            1nat
        } else {
            0nat
        }
    }
}

/// A row turned into a header row: header cells have no content style; an
/// AsciiDoc or literal cell is read again from the tokens kept for it (the
/// next of `data`), any other keeps its tokens.
pub open spec fn reparsed(
    row: Seq<(CellSpec, Option<ColSpec>, CellContentStyle, Seq<TokenView>)>,
    data: Seq<(CellSpec, Option<ColSpec>, Seq<TokenView>)>,
) -> Seq<(CellSpec, Option<ColSpec>, CellContentStyle, Seq<TokenView>)>
    decreases row.len(),
{
    if row.len() == 0 {
        Seq::empty()
    } else if kept_for_reparse(row[0].2) {
        seq![(data[0].0, data[0].1, CellContentStyle::Default, data[0].2)] + reparsed(
            row.drop_first(),
            data.drop_first(),
        )
    } else {
        seq![(row[0].0, row[0].1, CellContentStyle::Default, row[0].3)] + reparsed(row.drop_first(), data)
    }
}

proof fn lemma_reparse_step(
    row: Seq<(CellSpec, Option<ColSpec>, CellContentStyle, Seq<TokenView>)>,
    data: Seq<(CellSpec, Option<ColSpec>, Seq<TokenView>)>,
    i: int,
    used: int,
)
    requires
        0 <= i < row.len(),
        0 <= used <= data.len(),
        reparse_count(row.skip(i)) <= data.len() - used,
    ensures
        reparse_count(row.skip(i)) == reparse_count(row.skip(i + 1)) + if kept_for_reparse(row[i].2) {
            1nat
        } else {
            0nat
        },
        reparsed(row.skip(i), data.skip(used)) == if kept_for_reparse(row[i].2) {
            seq![(data.skip(used)[0].0, data.skip(used)[0].1, CellContentStyle::Default, data.skip(used)[0].2)]
                + reparsed(row.skip(i + 1), data.skip(used + 1))
        } else {
            seq![(row[i].0, row[i].1, CellContentStyle::Default, row[i].3)] + reparsed(row.skip(i + 1), data.skip(used))
        },
{
    assert(row.skip(i).drop_first() =~= row.skip(i + 1));
    assert(row.skip(i)[0] == row[i]);
    if used < data.len() {
        assert(data.skip(used).drop_first() =~= data.skip(used + 1));
    }
}

/// What the table knows once a row is read: the first row becomes the
/// header row when one is known to exist (reparsed when it was found in
/// the data), otherwise rows are body rows, and a table whose header was
/// still undecided then has none.
pub open spec fn row_pushed(
    ctx0: &TableContext,
    ctx1: &TableContext,
    t0: &Table,
    t1: &Table,
    row: Seq<(CellSpec, Option<ColSpec>, CellContentStyle, Seq<TokenView>)>,
) -> bool {
    &&& t1.footer_row == t0.footer_row
    &&& if t0.rows@.len() == 0 && t0.header_row is None && (ctx0.header_row is FoundImplicit
        || ctx0.header_row is ExplicitlySet) {
        &&& rows_view(t1.rows@) == rows_view(t0.rows@)
        &&& ctx1.header_row == ctx0.header_row
        &&& if ctx0.header_row is FoundImplicit {
            &&& opt_row_view(t1.header_row) == Some(reparsed(row, datas_view(ctx0.header_reparse_cells@)))
            &&& datas_view(ctx1.header_reparse_cells@) == datas_view(ctx0.header_reparse_cells@).skip(
                reparse_count(row) as int,
            )
        } else {
            &&& opt_row_view(t1.header_row) == Some(row)
            &&& datas_view(ctx1.header_reparse_cells@) == datas_view(ctx0.header_reparse_cells@)
        }
    } else {
        &&& opt_row_view(t1.header_row) == opt_row_view(t0.header_row)
        &&& rows_view(t1.rows@) == rows_view(t0.rows@).push(row)
        &&& ctx1.header_row == if ctx0.header_row is Unknown {
            HeaderRow::FoundNone
        } else {
            ctx0.header_row
        }
        &&& datas_view(ctx1.header_reparse_cells@) == datas_view(ctx0.header_reparse_cells@)
    }
}

/// The context apart from its header state and kept cells.
pub open spec fn same_but_header(a: &TableContext, b: &TableContext) -> bool {
    &&& b.delim_ch == a.delim_ch
    &&& b.format == a.format
    &&& b.cell_separator == a.cell_separator
    &&& b.embeddable_cell_separator == a.embeddable_cell_separator
    &&& b.cell_separator_tokenkind == a.cell_separator_tokenkind
    &&& b.col_specs == a.col_specs
    &&& b.num_cols == a.num_cols
    &&& b.counting_cols == a.counting_cols
    &&& b.autowidths == a.autowidths
    &&& b.phantom_cells == a.phantom_cells
    &&& b.effective_row_idx == a.effective_row_idx
    &&& b.dsv_last_consumed == a.dsv_last_consumed
}

/// Turns a row read before the header was known into a header row (see
/// `reparsed`), using up the tokens kept for its AsciiDoc and literal
/// cells.
pub fn reparse_header_cells(row: Vec<TableCell>, ctx: &mut TableContext) -> (r: Vec<TableCell>)
    requires
        reparse_count(row_view(row@)) <= old(ctx).header_reparse_cells@.len(),
    ensures
        row_view(r@) == reparsed(row_view(row@), datas_view(old(ctx).header_reparse_cells@)),
        datas_view(final(ctx).header_reparse_cells@) == datas_view(old(ctx).header_reparse_cells@).skip(
            reparse_count(row_view(row@)) as int,
        ),
        final(ctx).header_row == old(ctx).header_row,
        same_but_header(old(ctx), final(ctx)),
{
    let ghost rv = row_view(row@);
    let ghost dv = datas_view(ctx.header_reparse_cells@);
    let mut rest = row;
    let mut out: Vec<TableCell> = Vec::new();
    let ghost mut i: int = 0;
    let ghost mut used: int = 0;
    assert(rv.skip(0) =~= rv);
    assert(dv.skip(0) =~= dv);
    assert(row_view(out@) + reparsed(rv.skip(0), dv.skip(0)) =~= reparsed(rv, dv));
    while rest.len() > 0
        invariant
            0 <= i <= rv.len(),
            0 <= used <= dv.len(),
            row_view(rest@) == rv.skip(i),
            datas_view(ctx.header_reparse_cells@) == dv.skip(used),
            reparse_count(rv.skip(i)) <= dv.len() - used,
            row_view(out@) + reparsed(rv.skip(i), dv.skip(used)) == reparsed(rv, dv),
            used + reparse_count(rv.skip(i)) == reparse_count(rv),
            ctx.header_row == old(ctx).header_row,
            same_but_header(old(ctx), ctx),
        decreases rest@.len(),
    {
        let ghost before = rest@;
        let cell = rest.remove(0);
        proof {
            assert(row_view(before).len() == before.len());
            assert(rv.skip(i).len() > 0);
            assert(row_view(before)[0] == cell_view(cell));
            assert(rv.skip(i)[0] == rv[i]);
            assert(row_view(rest@) =~= row_view(before).drop_first());
            assert(rv.skip(i).drop_first() =~= rv.skip(i + 1));
            lemma_reparse_step(rv, dv, i, used);
        }
        let ghost o = out@;
        if cell.style == CellContentStyle::AsciiDoc || cell.style == CellContentStyle::Literal {
            let ghost db = ctx.header_reparse_cells@;
            let data = ctx.header_reparse_cells.remove(0);
            proof {
                assert(datas_view(db).len() == db.len());
                assert(datas_view(db)[0] == data_view(data));
                assert(dv.skip(used)[0] == dv[used]);
                assert(datas_view(ctx.header_reparse_cells@) =~= datas_view(db).drop_first());
                assert(dv.skip(used).drop_first() =~= dv.skip(used + 1));
            }
            out.push(TableCell {
                spec: data.cell_spec,
                col_spec: data.col_spec,
                style: CellContentStyle::Default,
                tokens: data.cell_tokens,
            });
            proof {
                assert(row_view(out@) =~= row_view(o).push((dv[used].0, dv[used].1, CellContentStyle::Default, dv[used].2)));
                assert(row_view(out@) + reparsed(rv.skip(i + 1), dv.skip(used + 1)) =~= row_view(o) + (seq![
                    (dv[used].0, dv[used].1, CellContentStyle::Default, dv[used].2),
                ] + reparsed(rv.skip(i + 1), dv.skip(used + 1))));
                used = used + 1;
            }
        } else {
            let ghost cv = cell_view(cell);
            out.push(TableCell {
                spec: cell.spec,
                col_spec: cell.col_spec,
                style: CellContentStyle::Default,
                tokens: cell.tokens,
            });
            proof {
                assert(row_view(out@) =~= row_view(o).push((cv.0, cv.1, CellContentStyle::Default, cv.3)));
                assert(row_view(out@) + reparsed(rv.skip(i + 1), dv.skip(used)) =~= row_view(o) + (seq![
                    (cv.0, cv.1, CellContentStyle::Default, cv.3),
                ] + reparsed(rv.skip(i + 1), dv.skip(used))));
            }
        }
        proof {
            i = i + 1;
        }
    }
    proof {
        assert(rv.skip(i).len() == 0);
        assert(row_view(out@) + reparsed(rv.skip(i), dv.skip(used)) =~= row_view(out@));
    }
    out
}

/// Adds a row read from a table (see `row_pushed`).
pub fn push_table_row(row: Vec<TableCell>, ctx: &mut TableContext, table: &mut Table)
    requires
        old(table).rows@.len() == 0 && old(table).header_row is None && old(ctx).header_row is FoundImplicit
            ==> reparse_count(row_view(row@)) <= old(ctx).header_reparse_cells@.len(),
    ensures
        row_pushed(old(ctx), final(ctx), old(table), final(table), row_view(row@)),
        final(table).col_widths == old(table).col_widths,
        same_but_header(old(ctx), final(ctx)),
{
    let ghost rv = row_view(row@);
    if table.rows.len() == 0 && table.header_row.is_none() && ctx.header_row.known_to_exist() {
        if ctx.header_row == HeaderRow::FoundImplicit {
            let r = reparse_header_cells(row, ctx);
            table.header_row = Some(r);
        } else {
            table.header_row = Some(row);
        }
    } else {
        let ghost before = table.rows@;
        table.rows.push(row);
        assert(rows_view(table.rows@) =~= rows_view(before).push(rv));
        if ctx.header_row.is_unknown() {
            ctx.header_row = HeaderRow::FoundNone;
        }
    }
}

/// Ends a table: with the `footer` option its last body row becomes the
/// footer row.
pub fn finish_table(table: &mut Table, footer: bool)
    ensures
        final(table).col_widths == old(table).col_widths,
        opt_row_view(final(table).header_row) == opt_row_view(old(table).header_row),
        if footer && old(table).rows@.len() > 0 {
            &&& rows_view(final(table).rows@) == rows_view(old(table).rows@).drop_last()
            &&& opt_row_view(final(table).footer_row) == Some(rows_view(old(table).rows@).last())
        } else {
            &&& rows_view(final(table).rows@) == rows_view(old(table).rows@)
            &&& opt_row_view(final(table).footer_row) == opt_row_view(old(table).footer_row)
        },
{
    if footer && table.rows.len() > 0 {
        let ghost before = table.rows@;
        let last = table.rows.pop().unwrap();
        proof {
            assert(rows_view(table.rows@) =~= rows_view(before).drop_last());
            assert(rows_view(before).last() == row_view(last@));
        }
        table.footer_row = Some(last);
    }
}

/// Ends the first row of a table whose columns were counted from it: the
/// columns get equal widths (automatic ones with `autowidth`), and the row
/// is added as a header row or a body row as `row_pushed` says, with the
/// header decided as of a first row (the table has no rows yet). An empty
/// row changes nothing.
pub fn finish_implicit_header_row(cells: Vec<TableCell>, ctx: &mut TableContext, table: &mut Table)
    requires
        old(ctx).effective_row_idx < usize::MAX,
        old(table).rows@.len() == 0,
        old(table).header_row is None,
        old(ctx).header_row is FoundImplicit ==> reparse_count(row_view(cells@)) <= old(ctx).header_reparse_cells@.len(),
    ensures
        cells@.len() == 0 ==> *final(ctx) == *old(ctx) && rows_view(final(table).rows@) == rows_view(old(table).rows@)
            && final(table).header_row is None && final(table).col_widths == old(table).col_widths,
        cells@.len() > 0 ==> {
            &&& final(ctx).effective_row_idx == old(ctx).effective_row_idx + 1
            &&& final(table).col_widths@ == Seq::new(
                old(ctx).num_cols as nat,
                |i: int|
                    if old(ctx).autowidths {
                        ColWidth::Auto
                    } else {
                        ColWidth::Proportional(1)
                    },
            )
            &&& row_pushed(old(ctx), final(ctx), old(table), final(table), row_view(cells@))
        },
        cells@.len() > 0 ==> ({
            let mid = TableContext { effective_row_idx: (old(ctx).effective_row_idx + 1) as usize, ..*old(ctx) };
            same_but_header(&mid, final(ctx))
        }),
{
    if cells.len() == 0 {
        return;
    }
    ctx.effective_row_idx = ctx.effective_row_idx + 1;
    let width = if ctx.autowidths {
        ColWidth::Auto
    } else {
        ColWidth::Proportional(1)
    };
    let mut widths: Vec<ColWidth> = Vec::new();
    let mut k: usize = 0;
    while k < ctx.num_cols
        invariant
            0 <= k <= ctx.num_cols,
            widths@ == Seq::new(k as nat, |i: int| width),
        decreases ctx.num_cols - k,
    {
        widths.push(width);
        assert(widths@ =~= Seq::new((k + 1) as nat, |i: int| width));
        k = k + 1;
    }
    table.col_widths = widths;
    push_table_row(cells, ctx, table);
}

/// A copy of the tokens.
fn copy_tokens(ts: &Vec<Token>) -> (r: Vec<Token>)
    ensures
        tokens_view(r@) == tokens_view(ts@),
{
    let mut out: Vec<Token> = Vec::new();
    let mut i: usize = 0;
    while i < ts.len()
        invariant
            0 <= i <= ts@.len(),
            tokens_view(out@) == tokens_view(ts@).take(i as int),
        decreases ts@.len() - i,
    {
        let t = ts[i].duplicate();
        let ghost o = out@;
        assert(token_view(t) == tokens_view(ts@)[i as int]);
        out.push(t);
        assert(tokens_view(out@) =~= tokens_view(o).push(token_view(t)));
        assert(tokens_view(out@) =~= tokens_view(ts@).take(i + 1));
        i = i + 1;
    }
    assert(tokens_view(ts@).take(i as int) =~= tokens_view(ts@));
    out
}

/// How many whitespace or newline tokens end `ts`.
pub open spec fn trailing_ws(ts: Seq<TokenView>) -> nat
    decreases ts.len(),
{
    if ts.len() > 0 && crate::dsv::whitespaceish(ts.last().0) {
        trailing_ws(ts.drop_last()) + 1
    } else {
        0
    }
}

/// The blank tokens ending a cell's tokens start with two newlines: the
/// cell ends a line that a blank line follows.
pub open spec fn ends_with_blank_line(ts: Seq<TokenView>) -> bool {
    let m = trailing_ws(ts) as int;
    m > 1 && ts[ts.len() - m].0 == crate::token::TokenKind::Newline && ts[ts.len() - m + 1].0
        == crate::token::TokenKind::Newline
}

/// The column spec of column `i`, if the table has one.
pub open spec fn col_spec_at(ctx: &TableContext, i: int) -> Option<ColSpec> {
    if 0 <= i < ctx.col_specs@.len() {
        Some(ctx.col_specs@[i])
    } else {
        None
    }
}

/// A cell's content style: its own, else its column's, else the default;
/// none for the cells of a header row known to exist and not yet read.
pub open spec fn cell_style_of(spec: CellSpec, col: Option<ColSpec>, header: HeaderRow, has_header_row: bool) -> CellContentStyle {
    if (header is FoundImplicit || header is ExplicitlySet) && !has_header_row {
        CellContentStyle::Default
    } else {
        match spec.style {
            Some(s) => s,
            None => match col {
                Some(c) => c.style,
                None => CellContentStyle::Default,
            },
        }
    }
}

proof fn lemma_trailing_ws_bound(ts: Seq<TokenView>)
    ensures
        trailing_ws(ts) <= ts.len(),
        forall|k: int| ts.len() - trailing_ws(ts) <= k < ts.len() ==> crate::dsv::whitespaceish(#[trigger] ts[k].0),
        trailing_ws(ts) < ts.len() ==> !crate::dsv::whitespaceish(ts[ts.len() - trailing_ws(ts) - 1].0),
    decreases ts.len(),
{
    if ts.len() > 0 && crate::dsv::whitespaceish(ts.last().0) {
        lemma_trailing_ws_bound(ts.drop_last());
        assert forall|k: int| ts.len() - trailing_ws(ts) <= k < ts.len() implies crate::dsv::whitespaceish(#[trigger] ts[k].0) by {
            if k < ts.len() - 1 {
                assert(ts.drop_last()[k] == ts[k]);
            }
        }
        if trailing_ws(ts) < ts.len() {
            assert(ts.drop_last()[ts.len() - trailing_ws(ts) - 1] == ts[ts.len() - trailing_ws(ts) - 1]);
        }
    }
}

/// Finishes a cell of column `col_index` from its specifier and tokens:
/// trailing blank tokens are dropped (the cell's range ends where they
/// start); while the header row is undecided, a cell of a prefix-separated
/// table that ends a line followed by a blank line shows the first row to
/// be a header row; AsciiDoc and literal cells read before the header is
/// decided keep their tokens for reparsing. Gives the cell (its style as
/// `cell_style_of` says) and how many times it stands (its duplication).
pub fn finish_cell(
    cell_spec: CellSpec,
    cell_tokens: Vec<Token>,
    col_index: usize,
    ctx: &mut TableContext,
    has_header_row: bool,
    loc: crate::token::SourceLocation,
) -> (r: (TableCell, u8))
    ensures
        ({
            let ts = tokens_view(cell_tokens@);
            let m = trailing_ws(ts) as int;
            let col = col_spec_at(old(ctx), col_index as int);
            let style = cell_style_of(cell_spec, col, old(ctx).header_row, has_header_row);
            let found = old(ctx).header_row is Unknown && old(ctx).format is Prefix && ends_with_blank_line(ts);
            let end = if m > 0 {
                ts[ts.len() - m].1.start
            } else {
                loc.end
            };
            &&& cell_view(r.0) == (cell_spec, col, style, ts.take(ts.len() - m))
            &&& r.1 == match cell_spec.duplication {
                Some(d) => d,
                None => 1u8,
            }
            &&& final(ctx).header_row == if found {
                HeaderRow::FoundImplicit
            } else {
                old(ctx).header_row
            }
            &&& datas_view(final(ctx).header_reparse_cells@) == if kept_for_reparse(style) && old(ctx).header_row is Unknown {
                datas_view(old(ctx).header_reparse_cells@).push((cell_spec, col, ts.take(ts.len() - m)))
            } else {
                datas_view(old(ctx).header_reparse_cells@)
            }
            &&& kept_for_reparse(style) && old(ctx).header_row is Unknown ==> final(ctx).header_reparse_cells@.last().loc
                == (crate::token::SourceLocation { start: loc.start, end, include_depth: loc.include_depth })
        }),
        same_but_header(old(ctx), final(ctx)),
{
    let ghost ts = tokens_view(cell_tokens@);
    let col_spec = if col_index < ctx.col_specs.len() {
        Some(ctx.col_specs[col_index])
    } else {
        None
    };
    let mut cell_style = match cell_spec.style {
        Some(s) => s,
        None => match col_spec {
            Some(c) => c.style,
            None => CellContentStyle::Default,
        },
    };
    if ctx.header_row.known_to_exist() && !has_header_row {
        cell_style = CellContentStyle::Default;
    }
    let was_unknown = ctx.header_row.is_unknown();
    let is_prefix = match ctx.format {
        crate::table::DataFormat::Prefix(_) => true,
        _ => false,
    };
    let mut tokens = cell_tokens;
    let mut end = loc.end;
    let mut first_ws_newline = false;
    let mut second_ws_newline = false;
    let mut popped: usize = 0;
    let n0 = tokens.len();
    proof {
        lemma_trailing_ws_bound(ts);
    }
    while tokens.len() > 0 && (tokens[tokens.len() - 1].kind == crate::token::TokenKind::Whitespace
        || tokens[tokens.len() - 1].kind == crate::token::TokenKind::Newline)
        invariant
            ts == tokens_view(cell_tokens@),
            trailing_ws(ts) <= ts.len(),
            forall|k: int| ts.len() - trailing_ws(ts) <= k < ts.len() ==> crate::dsv::whitespaceish(#[trigger] ts[k].0),
            trailing_ws(ts) < ts.len() ==> !crate::dsv::whitespaceish(ts[ts.len() - trailing_ws(ts) - 1].0),
            popped <= trailing_ws(ts),
            popped + tokens@.len() == ts.len(),
            n0 == ts.len(),
            tokens_view(tokens@) == ts.take(ts.len() - popped),
            popped == 0 ==> end == loc.end,
            popped > 0 ==> end == ts[ts.len() - popped].1.start,
            popped > 0 ==> first_ws_newline == (ts[ts.len() - popped].0 == crate::token::TokenKind::Newline),
            popped > 1 ==> second_ws_newline == (ts[ts.len() - popped + 1].0 == crate::token::TokenKind::Newline),
        decreases tokens@.len(),
    {
        let ghost before = tokens@;
        let t = tokens.pop().unwrap();
        proof {
            assert(tokens_view(before).last() == token_view(t));
            assert(tokens_view(tokens@) =~= tokens_view(before).drop_last());
            assert(ts.take(ts.len() - popped).drop_last() =~= ts.take(ts.len() - popped - 1));
            assert(ts[ts.len() - popped - 1] == token_view(t));
            if popped == trailing_ws(ts) {
                assert(crate::dsv::whitespaceish(ts[ts.len() - popped - 1].0));
            }
        }
        end = t.loc.start;
        second_ws_newline = first_ws_newline;
        first_ws_newline = t.kind == crate::token::TokenKind::Newline;
        popped = popped + 1;
    }
    proof {
        if popped < trailing_ws(ts) {
            assert(tokens@.len() > 0);
            assert(tokens_view(tokens@)[tokens@.len() - 1] == token_view(tokens@[tokens@.len() - 1]));
            assert(ts.take(ts.len() - popped)[ts.len() - popped - 1] == ts[ts.len() - popped - 1]);
            assert(crate::dsv::whitespaceish(ts[ts.len() - popped - 1].0));
            assert(tokens@[tokens@.len() - 1].kind == ts[ts.len() - popped - 1].0);
        }
    }
    assert(popped == trailing_ws(ts));
    if was_unknown && is_prefix && popped > 1 && first_ws_newline && second_ws_newline {
        ctx.header_row = HeaderRow::FoundImplicit;
    }
    let repeat = match cell_spec.duplication {
        Some(d) => d,
        None => 1u8,
    };
    if (cell_style == CellContentStyle::AsciiDoc || cell_style == CellContentStyle::Literal) && was_unknown {
        let kept = copy_tokens(&tokens);
        let ghost db = ctx.header_reparse_cells@;
        let data = ParseCellData {
            cell_tokens: kept,
            loc: crate::token::SourceLocation { start: loc.start, end, include_depth: loc.include_depth },
            cell_spec,
            col_spec,
        };
        ctx.header_reparse_cells.push(data);
        assert(datas_view(ctx.header_reparse_cells@) =~= datas_view(db).push(data_view(data)));
    }
    (TableCell { spec: cell_spec, col_spec, style: cell_style, tokens }, repeat)
}

} // verus!
