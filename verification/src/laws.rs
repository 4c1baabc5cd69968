//! Properties that hold across the library's operations.
use vstd::prelude::*;

use crate::attr_def::{attr_value_of, Negation};
use crate::attrs::{lookup, AttrValueV};
use crate::ifeval::{eval_spec, text_less, Op, ValueV};
use crate::line::byte_len;
use crate::parser::TableOfContents;
use crate::table_spec::{col_spec_of_groups, h_align_step, CellSpec};
use crate::tags::{satisfies, SpecV};
use crate::text::{all_digits, decimal, is_ws, trim, trim_end, trim_start};
use crate::toc::{inserted_at, toc_pushed, toc_steps, toclevels_of, tocs_view, TocNodeV};
use crate::token::{SourceLocation, TokenKind};
use crate::section_id::{autogen_id, candidate, sequenced};
use crate::structure::{
    balanced, block_spec, blocks_spec, book_spec, content_balanced, lemma_block_balanced, lemma_blocks_balanced,
    lemma_book_balanced, lemma_peeked_balanced, lemma_section_balanced, lemma_sections_balanced, peeked_spec,
    section_spec, sections_spec, Chunk, ReadCtx, SectionHeading, lemma_blocks_opens, lemma_peeked_opens, opens_below,
};
use crate::skip_endif::{closing_index, closings, lemma_closing_balances, openings, SkippedLine};
use crate::subs::{inserted, removed, Subs};
use crate::table_spec::{after_cell_start, cell_start, TokenView};
use crate::time::{date_parsed, doc_date_moment, doc_time_moment, doc_timestamp, now_timestamp, zoned_parsed, DATE_FORMAT, DOCTIME_DATE_PREFIX, ZONED_PARSE_FORMAT};

verus! {

/// Candidates 2 up to `k` can all be taken only if there are that many
/// taken ids.
proof fn lemma_free_candidate_exists(id: Seq<char>, sep: Option<char>, taken: Seq<Seq<char>>)
    ensures
        exists|k: nat|
            k >= 2 && !taken.contains(candidate(id, sep, k)) && forall|j: nat|
                2 <= j < k ==> taken.contains(#[trigger] candidate(id, sep, j)),
{
    let bound = (taken.len() + 3) as nat;
    if forall|k: nat| 2 <= k < bound ==> taken.contains(#[trigger] candidate(id, sep, k)) {
        crate::section_id::lemma_candidates_bound(id, sep, taken, bound);
        assert(false);
    } else {
        let k0 = choose|k: nat| 2 <= k < bound && !taken.contains(#[trigger] candidate(id, sep, k));
        lemma_least_free(id, sep, taken, k0, 2);
    }
}

proof fn lemma_least_free(id: Seq<char>, sep: Option<char>, taken: Seq<Seq<char>>, k0: nat, lo: nat)
    requires
        2 <= lo <= k0,
        !taken.contains(candidate(id, sep, k0)),
        forall|j: nat| 2 <= j < lo ==> taken.contains(#[trigger] candidate(id, sep, j)),
    ensures
        exists|k: nat|
            k >= 2 && !taken.contains(candidate(id, sep, k)) && forall|j: nat|
                2 <= j < k ==> taken.contains(#[trigger] candidate(id, sep, j)),
    decreases k0 - lo,
{
    if !taken.contains(candidate(id, sep, lo)) {
        assert(lo >= 2 && !taken.contains(candidate(id, sep, lo)) && forall|j: nat|
            2 <= j < lo ==> taken.contains(#[trigger] candidate(id, sep, j)));
    } else {
        assert forall|j: nat| 2 <= j < lo + 1 implies taken.contains(#[trigger] candidate(id, sep, j)) by {
        }
        lemma_least_free(id, sep, taken, k0, lo + 1);
    }
}

/// A numbered id is never one that is taken.
pub proof fn law_sequenced_id_is_fresh(id: Seq<char>, sep: Option<char>, taken: Seq<Seq<char>>)
    ensures
        !taken.contains(sequenced(id, sep, taken)),
{
    lemma_free_candidate_exists(id, sep, taken);
}

/// A generated section id is never one already taken, so the ids the
/// parser generates for a document are all distinct.
pub proof fn law_generated_id_is_fresh(
    line: Seq<char>,
    prefix: Seq<char>,
    sep: Option<char>,
    re: bool,
    ra: bool,
    taken: Seq<Seq<char>>,
)
    requires
        autogen_id(line, prefix, sep, re, ra, taken) is Some,
    ensures
        !taken.contains(autogen_id(line, prefix, sep, re, ra, taken)->0),
    decreases (if re {
        0int
    } else {
        1int
    }) + (if ra {
        0int
    } else {
        1int
    }),
{
    let last = if prefix.len() > 0 {
        prefix.last()
    } else {
        '\0'
    };
    match crate::section_id::id_scan(line, 0, sep, re, ra, prefix, false, last) {
        crate::section_id::IdScan::Done(id, l) => {
            let id1 = if sep == Some(l) && id.len() > 0 {
                id.drop_last()
            } else {
                id
            };
            law_sequenced_id_is_fresh(id1, sep, taken);
            if prefix.len() == 0 && id1.len() > 0 && sep == Some(id1[0]) {
                law_sequenced_id_is_fresh(id1.drop_first(), sep, taken);
            }
        },
        crate::section_id::IdScan::StripAux => {
            law_generated_id_is_fresh(
                crate::section_id::stripped(crate::section_id::aux_id_pattern(), line, "$1"@),
                prefix,
                sep,
                re,
                true,
                taken,
            );
        },
        crate::section_id::IdScan::StripEntities => {
            law_generated_id_is_fresh(
                crate::section_id::stripped(crate::section_id::entity_pattern(), line, ""@),
                prefix,
                sep,
                true,
                ra,
                taken,
            );
        },
    }
}

/// Tokens laid out one after another: each spans its own bytes and the
/// next starts where it ends.
pub open spec fn contiguous(t: Seq<TokenView>) -> bool {
    &&& forall|i: int| 0 <= i < t.len() ==> (#[trigger] t[i]).1.end == t[i].1.start + byte_len(t[i].2)
    &&& forall|i: int| 0 <= i < t.len() - 1 ==> (#[trigger] t[i + 1]).1.start == t[i].1.end
}

/// Over contiguous tokens, the offset a cell start reports as where the
/// cell's content resumes is where the tokens left after it begin.
pub proof fn law_cell_content_resumes_at_remaining_tokens(t: Seq<TokenView>, sep: char)
    requires
        contiguous(t),
        crate::table_spec::starts_fit(t),
        cell_start(t, sep) is Some,
        after_cell_start(t, cell_start(t, sep)->0).len() > 0,
    ensures
        after_cell_start(t, cell_start(t, sep)->0)[0].1.start == cell_start(t, sep)->0.resuming,
{
    let cs = cell_start(t, sep)->0;
    if t[0].2[0] == sep {
        assert(t[0].1.start + 5 <= u32::MAX);
        if byte_len(t[0].2) == crate::table_spec::sep_len(sep) {
            assert(t[1].1.start == t[0].1.end);
        }
    } else {
        let c = crate::table_spec::parsed_spec(t).1;
        assert(t[c].1.start + 5 <= u32::MAX);
        if cs.drop_bytes == 0 && c + 1 < t.len() {
            assert(t[c + 1].1.start == t[c].1.end);
        }
    }
}

/// A `**` term overrides every term before it.
pub proof fn law_double_star_resets_selection(specs: Seq<crate::tags::SpecV>)
    ensures
        crate::tags::pushed(specs, crate::tags::SpecV::AllNonTagDirectiveLines) == seq![
            crate::tags::SpecV::AllNonTagDirectiveLines,
        ],
{
}

/// A relative level offset undone by its opposite leaves the offset as it
/// was; unsetting `leveloffset` resets it to zero.
pub proof fn law_leveloffset_relative_roundtrip(lo: int, n: Seq<char>)
    ensures
        crate::parser::leveloffset_after(
            crate::parser::leveloffset_after(lo, crate::attrs::AttrValueV::String(seq!['+'] + n)),
            crate::attrs::AttrValueV::String(seq!['-'] + n),
        ) == lo,
        crate::parser::leveloffset_after(lo, crate::attrs::AttrValueV::Bool(false)) == 0,
{
    assert((seq!['+'] + n).drop_first() =~= n);
    assert((seq!['-'] + n).drop_first() =~= n);
}

/// An added step is there and a removed one is gone; adding twice is
/// adding once, and removing what was just added gives what removing alone
/// gives.
pub proof fn law_subs_insert_remove(s: Seq<Subs>, step: Subs)
    ensures
        inserted(s, step).contains(step),
        !removed(s, step).contains(step),
        inserted(inserted(s, step), step) == inserted(s, step),
        removed(inserted(s, step), step) == removed(s, step),
{
    if !s.contains(step) {
        assert(s.push(step)[s.len() as int] == step);
        assert(s.push(step).drop_last() =~= s);
    }
    lemma_removed_lacks(s, step);
}

proof fn lemma_removed_lacks(s: Seq<Subs>, step: Subs)
    ensures
        !removed(s, step).contains(step),
    decreases s.len(),
{
    if s.len() > 0 {
        lemma_removed_lacks(s.drop_last(), step);
        let r = removed(s.drop_last(), step);
        if s.last() != step {
            assert forall|i: int| 0 <= i < r.push(s.last()).len() implies r.push(s.last())[i] != step by {
                if i < r.len() {
                    assert(r.contains(r[i]) ==> r[i] != step);
                }
            }
        }
    }
}

/// The `endif` that ends a skipped conditional block closes it: the lines
/// skipped before it open exactly as many nested levels as they close.
pub proof fn law_skipped_block_is_balanced(lines: Seq<SkippedLine>)
    requires
        closing_index(lines, 1, 0) is Some,
    ensures
        ({
            let i = closing_index(lines, 1, 0)->0;
            &&& 0 <= i < lines.len()
            &&& lines[i] == SkippedLine::Endif(true)
            &&& closings(lines, i) == openings(lines, i)
        }),
{
    lemma_closing_balances(lines, 1, 0);
}

/// A reproducible timestamp stands for both the document's timestamp and
/// the current one, whatever the others are.
pub proof fn law_reproducible_timestamp_wins(now: u64, input_mtime: Option<u64>, reproducible: u64)
    ensures
        doc_timestamp(now, input_mtime, Some(reproducible)) == reproducible,
        now_timestamp(now, Some(reproducible)) == reproducible,
{
}

/// A `docdate` or `doctime` attribute that jiff reads decides its moment:
/// the document's timestamp then plays no part.
pub proof fn law_datetime_attrs_override_timestamp(attr: Seq<char>, t1: u64, t2: u64)
    ensures
        date_parsed(DATE_FORMAT@, attr) is Some ==> doc_date_moment(Some(attr), t1) == doc_date_moment(Some(attr), t2),
        zoned_parsed(ZONED_PARSE_FORMAT@, DOCTIME_DATE_PREFIX@ + attr) is Some ==> doc_time_moment(Some(attr), t1)
            == doc_time_moment(Some(attr), t2),
{
}

/// Sections nest: in the events of a section, of the blocks of a section,
/// of a run of sections, and of every stretch of a book's body, each
/// section or delimited block opened is closed by a later `Close`, and each
/// `Close` closes one opened before it.
pub proof fn law_sections_nest(s: Seq<Chunk>, pos: int, h: SectionHeading, sem: u8, c: ReadCtx, book: bool)
    ensures
        balanced(peeked_spec(s, pos, h, sem, c).events),
        section_spec(s, pos, c, book) matches Some(p) ==> balanced(p.events),
        block_spec(s, pos, c) matches Some(b) ==> balanced(b.events),
        balanced(blocks_spec(s, pos, c).events),
        balanced(sections_spec(s, pos, c, book).events),
        book_spec(s, pos, c, book) matches Some(x) ==> content_balanced(x.0),
{
    lemma_peeked_balanced(s, pos, h, sem, c);
    lemma_section_balanced(s, pos, c, book);
    lemma_block_balanced(s, pos, c);
    lemma_blocks_balanced(s, pos, c);
    lemma_sections_balanced(s, pos, c, book);
    lemma_book_balanced(s, pos, c, book);
}

/// Sections nest by level: every section read among the blocks of a
/// section at level `c.level` stands below it (has a higher level), and so
/// does every section inside a section given a level below `outer`.
pub proof fn law_nested_sections_stand_below(
    s: Seq<Chunk>,
    pos: int,
    h: SectionHeading,
    sem: u8,
    c: ReadCtx,
    outer: u8,
)
    requires
        sem > outer,
    ensures
        opens_below(blocks_spec(s, pos, c).events, c.level),
        opens_below(peeked_spec(s, pos, h, sem, c).events, outer),
{
    lemma_blocks_opens(s, pos, c);
    lemma_peeked_opens(s, pos, h, sem, c, outer);
}

proof fn lemma_decimal_digits(n: nat)
    ensures
        all_digits(decimal(n)),
        decimal(n).len() >= 1,
        crate::text::is_digit(decimal(n)[0]),
    decreases n,
{
    if n >= 10 {
        lemma_decimal_digits(n / 10);
        let d = (n % 10) as int;
        assert(0 <= d < 10);
        let s = decimal(n);
        assert(s == decimal(n / 10).push(crate::text::digit_char(d)));
        assert forall|i: int| 0 <= i < s.len() implies crate::text::is_digit(#[trigger] s[i]) by {
            if i < s.len() - 1 {
                assert(s[i] == decimal(n / 10)[i]);
            }
        }
    }
}

/// The `toclevels` attribute written as any number from 0 to 255 is the
/// deepest level the table of contents takes: a heading written at that
/// level or above joins it where `toc_steps` places it, and a deeper one
/// leaves it as it was.
pub proof fn law_toclevels_bounds_toc(
    attrs: Seq<(Seq<char>, AttrValueV)>,
    n: u8,
    before: TableOfContents,
    after: Option<TableOfContents>,
    authored_level: u8,
    semantic_level: u8,
    heading: Seq<char>,
    id: Option<Seq<char>>,
    special_sect: Option<crate::blocks::SpecialSection>,
)
    requires
        lookup(attrs, "toclevels"@) == Some(AttrValueV::String(decimal(n as nat))),
        toc_pushed(Some(before), after, attrs, authored_level, semantic_level, heading, id, special_sect),
    ensures
        toclevels_of(attrs) == n,
        after is Some,
        authored_level <= n ==> tocs_view(after->Some_0.nodes@) == inserted_at(
            tocs_view(before.nodes@),
            toc_steps(tocs_view(before.nodes@), authored_level, semantic_level),
            TocNodeV { level: authored_level, title: heading, id, special_sect, children: Seq::empty() },
        ),
        authored_level > n ==> tocs_view(after->Some_0.nodes@) == tocs_view(before.nodes@),
{
    lemma_decimal_digits(n as nat);
    crate::text::lemma_decimal_value(n as nat);
    let d = decimal(n as nat);
    assert(d[0] != '+');
    assert(crate::text::unsigned_decimal(d) == Some(n as int));
}

/// Integer comparisons in `ifeval` follow the order of the integers: `<`
/// is the integers' order, `>=` is its negation, `>` and `<=` are their
/// mirror images, `==` holds exactly when both `<=` and `>=` do, and `!=`
/// is its negation; so every integer is `==`, `<=` and `>=` itself.
pub proof fn law_ifeval_integer_order(a: int, b: int)
    ensures
        eval_spec(ValueV::Int(a), Op::Less, ValueV::Int(b)) == (a < b),
        eval_spec(ValueV::Int(a), Op::GreaterEq, ValueV::Int(b)) == !eval_spec(ValueV::Int(a), Op::Less, ValueV::Int(b)),
        eval_spec(ValueV::Int(a), Op::Greater, ValueV::Int(b)) == eval_spec(ValueV::Int(b), Op::Less, ValueV::Int(a)),
        eval_spec(ValueV::Int(a), Op::LessEq, ValueV::Int(b)) == eval_spec(ValueV::Int(b), Op::GreaterEq, ValueV::Int(a)),
        eval_spec(ValueV::Int(a), Op::Eq, ValueV::Int(b)) == (eval_spec(ValueV::Int(a), Op::LessEq, ValueV::Int(b))
            && eval_spec(ValueV::Int(a), Op::GreaterEq, ValueV::Int(b))),
        eval_spec(ValueV::Int(a), Op::NotEq, ValueV::Int(b)) == !eval_spec(ValueV::Int(a), Op::Eq, ValueV::Int(b)),
        eval_spec(ValueV::Int(a), Op::Eq, ValueV::Int(a)),
        eval_spec(ValueV::Int(a), Op::LessEq, ValueV::Int(a)),
        eval_spec(ValueV::Int(a), Op::GreaterEq, ValueV::Int(a)),
{
}

proof fn lemma_text_less_irreflexive(a: Seq<char>)
    ensures
        !text_less(a, a),
    decreases a.len(),
{
    if a.len() > 0 {
        lemma_text_less_irreflexive(a.drop_first());
    }
}

/// Every text compares `==`, `<=` and `>=` to itself in `ifeval`, and
/// neither `<`, `>` nor `!=`.
pub proof fn law_ifeval_text_reflexive(a: Seq<char>)
    ensures
        eval_spec(ValueV::String(a), Op::Eq, ValueV::String(a)),
        eval_spec(ValueV::String(a), Op::LessEq, ValueV::String(a)),
        eval_spec(ValueV::String(a), Op::GreaterEq, ValueV::String(a)),
        !eval_spec(ValueV::String(a), Op::Less, ValueV::String(a)),
        !eval_spec(ValueV::String(a), Op::Greater, ValueV::String(a)),
        !eval_spec(ValueV::String(a), Op::NotEq, ValueV::String(a)),
{
    lemma_text_less_irreflexive(a);
}

/// The token a horizontal alignment mark is read as in a cell specifier.
pub open spec fn align_mark_kind(m: char) -> TokenKind {
    if m == '<' {
        TokenKind::LessThan
    } else if m == '>' {
        TokenKind::GreaterThan
    } else {
        TokenKind::Caret
    }
}

/// A column specifier and a cell specifier with the same horizontal
/// alignment mark (`<`, `^` or `>`) align the same way, the three marks
/// give three different alignments, and only `<` gives the alignment of a
/// column without a mark.
pub proof fn law_column_alignment_matches_cells(
    gs: Seq<Option<Seq<char>>>,
    m: char,
    s: CellSpec,
    loc: SourceLocation,
    other: Seq<Option<Seq<char>>>,
    m2: char,
    unmarked: Seq<Option<Seq<char>>>,
)
    requires
        m == '<' || m == '^' || m == '>',
        m2 == '<' || m2 == '^' || m2 == '>',
        gs.len() > 2 && gs[2] == Some(seq![m]),
        other.len() > 2 && other[2] == Some(seq![m2]),
        unmarked.len() <= 2 || unmarked[2] is None,
    ensures
        Some(col_spec_of_groups(gs).h_align) == h_align_step(seq![(align_mark_kind(m), loc, seq![m])], s, 0).0.h_align,
        m != m2 ==> col_spec_of_groups(gs).h_align != col_spec_of_groups(other).h_align,
        (col_spec_of_groups(gs).h_align == col_spec_of_groups(unmarked).h_align) == (m == '<'),
{
    assert(seq![m] == seq!['^'] <==> m == '^') by {
        if seq![m] == seq!['^'] {
            assert(seq![m][0] == seq!['^'][0]);
        }
    }
    assert(seq![m] == seq!['>'] <==> m == '>') by {
        if seq![m] == seq!['>'] {
            assert(seq![m][0] == seq!['>'][0]);
        }
    }
    assert(seq![m2] == seq!['^'] <==> m2 == '^') by {
        if seq![m2] == seq!['^'] {
            assert(seq![m2][0] == seq!['^'][0]);
        }
    }
    assert(seq![m2] == seq!['>'] <==> m2 == '>') by {
        if seq![m2] == seq!['>'] {
            assert(seq![m2][0] == seq!['>'][0]);
        }
    }
}

/// A `!foo` term selects a line exactly when no tag open around it is named
/// `foo`, so exactly the lines a `foo` term leaves out: lines in other tags,
/// and lines in no tag, are selected.
pub proof fn law_excluded_tag_selects_rest(t: Seq<char>, st: Seq<(Seq<char>, usize)>)
    ensures
        satisfies(SpecV::AllLinesExcl(t), st) == !satisfies(SpecV::Tag(t), st),
        satisfies(SpecV::AllLinesExcl(t), st) == (forall|i: int| 0 <= i < st.len() ==> (#[trigger] st[i]).0 != t),
        satisfies(SpecV::Tag(t), st) == (exists|i: int| 0 <= i < st.len() && (#[trigger] st[i]).0 == t),
{
}

proof fn lemma_trim_start_blank(s: Seq<char>)
    requires
        forall|i: int| 0 <= i < s.len() ==> is_ws(#[trigger] s[i]),
    ensures
        trim_start(s).len() == 0,
    decreases s.len(),
{
    if s.len() > 0 {
        assert(is_ws(s[0]));
        lemma_trim_start_blank(s.drop_first());
    }
}

/// An attribute entry whose value is blank (empty or only whitespace) sets
/// the attribute (`true`) when written plainly and unsets it (`false`) when
/// negated either way; a value with text is the same text whatever the
/// negation.
pub proof fn law_blank_entry_sets_or_unsets(blank: Seq<char>, text: Seq<char>, neg: Negation)
    requires
        forall|i: int| 0 <= i < blank.len() ==> is_ws(#[trigger] blank[i]),
    ensures
        attr_value_of(blank, Negation::Unnegated) == AttrValueV::Bool(true),
        attr_value_of(blank, Negation::Leading) == AttrValueV::Bool(false),
        attr_value_of(blank, Negation::Trailing) == AttrValueV::Bool(false),
        trim(text).len() > 0 ==> attr_value_of(text, neg) == attr_value_of(text, Negation::Unnegated)
            && attr_value_of(text, neg) == AttrValueV::String(trim(text)),
{
    lemma_trim_start_blank(blank);
    assert(trim_start(blank) =~= Seq::<char>::empty());
    assert(trim_end(Seq::<char>::empty()) == Seq::<char>::empty());
}

} // verus!
