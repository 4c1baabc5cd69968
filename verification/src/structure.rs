//! How a document's chunks nest into sections, book parts and special
//! sections.
//!
//! The reader below this layer turns the source into chunks: each is a
//! section heading (with its level after any level offset, the special
//! section its attributes name, and where it stands), a line delimiting a
//! block whose contents are blocks, or another block (a paragraph, a list,
//! a listing ...), kept by its span. The parser here decides, from those
//! chunks alone, which blocks belong to which section or delimited block,
//! where each ends, and how a book is laid out. Its result is a sequence
//! of events: `Open` (or `Delimited`) and `Close` around the contents of
//! each section (or delimited block), and `Block` for each other block.
//! Errors are recorded in the parser's `errors`, or, in strict mode, the
//! first is returned.
use vstd::prelude::*;

use crate::attr_entry::messages;
use crate::blocks::SpecialSection;
use crate::include_directive::strings_of;
use crate::parser::{diag_view, Diagnostic, Parser};
use crate::toc::{out_of_sequence, out_of_sequence_message};

verus! {

/// A section heading as the reader found it: its level (after level
/// offsets), the special section its attributes name, whether its first
/// positional attribute is `bibliography`, the span of its line, the end of
/// its `=` marker and where its text starts.
#[derive(Debug, Clone, Copy, PartialEq, Eq, Structural)]
pub struct SectionHeading {
    pub level: u8,
    pub special: Option<SpecialSection>,
    pub bibliography: bool,
    pub line_start: u32,
    pub line_end: u32,
    pub marker_end: u32,
    pub text_start: u32,
}

/// The span of a block that is not a section.
#[derive(Debug, Clone, Copy, PartialEq, Eq, Structural)]
pub struct BlockSpan {
    pub start: u32,
    pub end: u32,
}

/// A line that opens or closes a delimited block whose contents are
/// blocks (an example, a sidebar, an open block ...): its kind, the same
/// for the lines that open and close one block, whether it is an open
/// block (`--`), and its span. Delimited
/// blocks whose contents are kept as written (listings, literals,
/// passthroughs, comments, verses) come as one `Block`.
#[derive(Debug, Clone, Copy, PartialEq, Eq, Structural)]
pub struct DelimiterLine {
    pub kind: u32,
    pub open_block: bool,
    pub start: u32,
    pub end: u32,
}

/// What the reader hands on: a section heading, a delimiter line, or
/// another block.
#[derive(Debug, Clone, Copy, PartialEq, Eq, Structural)]
pub enum Chunk {
    Heading(SectionHeading),
    Block(BlockSpan),
    Delimiter(DelimiterLine),
}

/// One step of the parsed outline: a section opens (at the level it is
/// given, which for a book's special sections differs from the level it is
/// written at), a delimited block opens, a block, or the innermost open
/// section or delimited block closes.
#[derive(Debug, Clone, Copy, PartialEq, Eq, Structural)]
pub enum Event {
    Open(u8, SectionHeading),
    Delimited(DelimiterLine),
    Block(BlockSpan),
    Close,
}

/// Whether the blocks being read stand in a bibliography.
#[derive(Debug, Clone, Copy, PartialEq, Eq, Structural)]
pub enum BiblioContext {
    Outside,
    Section,
    List,
}

/// The chunks being read, the position of the next one, the level of the
/// section being read, the bibliography context, whether the document is a
/// book, and the kind of the innermost delimited block being read.
#[derive(Debug)]
pub struct DocCursor {
    pub chunks: Vec<Chunk>,
    pub pos: usize,
    pub section_level: u8,
    pub bibliography_ctx: BiblioContext,
    pub doctype_book: bool,
    pub delimiter: Option<u32>,
}

/// A document read into a preamble (blocks before the first section) and
/// its sections.
#[derive(Debug)]
pub struct Sectioned {
    pub preamble: Option<Vec<Event>>,
    pub sections: Vec<Event>,
}

/// A part of a book: its heading, its intro and its sections.
#[derive(Debug)]
pub struct Part {
    pub heading: SectionHeading,
    pub intro: Option<Vec<Event>>,
    pub sections: Vec<Event>,
}

/// A book in parts, with the special sections before and after them.
#[derive(Debug)]
pub struct MultiPartBook {
    pub preamble: Option<Vec<Event>>,
    pub opening_special_sects: Vec<Event>,
    pub parts: Vec<Part>,
    pub closing_special_sects: Vec<Event>,
}

/// What a book's body is: plain blocks, sections, or parts.
#[derive(Debug)]
pub enum DocContent {
    Blocks(Vec<Event>),
    Sections(Sectioned),
    Parts(MultiPartBook),
}

/// What reading a stretch of chunks gives: the events, where reading
/// stopped, the errors met (message and span), and the headings of the
/// sections that stand directly in it.
pub struct Parsed {
    pub events: Seq<Event>,
    pub pos: int,
    pub errs: Seq<(Seq<char>, u32, u32)>,
    pub children: Seq<SectionHeading>,
}

/// A part as the specifications see it.
pub struct PartV {
    pub heading: SectionHeading,
    pub intro: Option<Seq<Event>>,
    pub sections: Seq<Event>,
}

/// A book's body as the specifications see it: blocks; a preamble and
/// sections; or a preamble, opening special sections, parts and closing
/// special sections.
pub enum DocContentV {
    Blocks(Seq<Event>),
    Sections(Option<Seq<Event>>, Seq<Event>),
    Parts(Option<Seq<Event>>, Seq<Event>, Seq<PartV>, Seq<Event>),
}

pub open spec fn opt_events(v: Option<Vec<Event>>) -> Option<Seq<Event>> {
    match v {
        Some(e) => Some(e@),
        None => None,
    }
}

pub open spec fn part_view(p: Part) -> PartV {
    PartV { heading: p.heading, intro: opt_events(p.intro), sections: p.sections@ }
}

pub open spec fn parts_view(ps: Seq<Part>) -> Seq<PartV> {
    ps.map_values(|p: Part| part_view(p))
}

pub open spec fn content_view(c: DocContent) -> DocContentV {
    match c {
        DocContent::Blocks(b) => DocContentV::Blocks(b@),
        DocContent::Sections(s) => DocContentV::Sections(opt_events(s.preamble), s.sections@),
        DocContent::Parts(b) => DocContentV::Parts(
            opt_events(b.preamble),
            b.opening_special_sects@,
            parts_view(b.parts@),
            b.closing_special_sects@,
        ),
    }
}

/// Blocks read into an optional preamble: none when there are none.
pub open spec fn preamble_of(e: Seq<Event>) -> Option<Seq<Event>> {
    if e.len() == 0 {
        None
    } else {
        Some(e)
    }
}

/// Special sections that may hold sections of their own.
pub open spec fn supports_subsections(sp: SpecialSection) -> bool {
    sp == SpecialSection::Appendix || sp == SpecialSection::Preface
}

/// The name a special section is reported under.
pub open spec fn special_name(sp: SpecialSection) -> Seq<char> {
    match sp {
        SpecialSection::Abstract => "abstract"@,
        SpecialSection::Acknowledgments => "acknowledgments"@,
        SpecialSection::Appendix => "appendix"@,
        SpecialSection::Bibliography => "bibliography"@,
        SpecialSection::Colophon => "colophon"@,
        SpecialSection::Dedication => "dedication"@,
        SpecialSection::Glossary => "glossary"@,
        SpecialSection::Index => "index"@,
        SpecialSection::Preface => "preface"@,
    }
}

/// The reports of the structure parser.
pub open spec fn level0_message() -> Seq<char> {
    "Level 0 section allowed only in doctype=book"@
}

pub open spec fn empty_part_message() -> Seq<char> {
    "Invalid empty book part, must have at least one section"@
}

pub open spec fn nested_message(sp: SpecialSection) -> Seq<char> {
    special_name(sp) + " sections do not support nested sections"@
}

/// One report for each section standing directly in a special section
/// that allows none, at the start of its text.
pub open spec fn nested_errs(sp: SpecialSection, hs: Seq<SectionHeading>) -> Seq<(Seq<char>, u32, u32)> {
    hs.map_values(|h: SectionHeading| (nested_message(sp), h.text_start, h.line_end))
}

/// The errors a section reports once its contents are read.
pub open spec fn closing_errs(h: SectionHeading, children: Seq<SectionHeading>) -> Seq<(Seq<char>, u32, u32)> {
    match h.special {
        Some(sp) => if supports_subsections(sp) {
            Seq::empty()
        } else {
            nested_errs(sp, children)
        },
        None => Seq::empty(),
    }
}

pub open spec fn is_heading(s: Seq<Chunk>, pos: int) -> bool {
    0 <= pos < s.len() && s[pos] is Heading
}

pub open spec fn heading_of(s: Seq<Chunk>, pos: int) -> SectionHeading {
    s[pos]->Heading_0
}

pub open spec fn nothing(pos: int) -> Parsed {
    Parsed { events: Seq::empty(), pos, errs: Seq::empty(), children: Seq::empty() }
}

/// `a` followed by `b`.
pub open spec fn then(a: Parsed, b: Parsed) -> Parsed {
    Parsed {
        events: a.events + b.events,
        pos: b.pos,
        errs: a.errs + b.errs,
        children: a.children + b.children,
    }
}

/// Where reading stands: the level of the section being read, and the
/// kind of the innermost delimited block being read, if any.
#[derive(Debug, Clone, Copy, PartialEq, Eq, Structural)]
pub struct ReadCtx {
    pub level: u8,
    pub delim: Option<u32>,
}

pub open spec fn ctx_of(cur: DocCursor) -> ReadCtx {
    ReadCtx { level: cur.section_level, delim: cur.delimiter }
}

pub open spec fn at_level(c: ReadCtx, level: u8) -> ReadCtx {
    ReadCtx { level, ..c }
}

pub open spec fn never_closed_message() -> Seq<char> {
    "This delimiter was never closed"@
}

/// A section: from where it is read and its heading (already read, with
/// the level it is given), its contents up to the first heading at its
/// level or above. A heading more than one level below the enclosing
/// section is reported; sections inside a special section that allows
/// none are reported once its contents are read.
pub open spec fn peeked_spec(s: Seq<Chunk>, pos: int, h: SectionHeading, sem: u8, c: ReadCtx) -> Parsed
    decreases s.len() - pos, 3int,
{
    let e0: Seq<(Seq<char>, u32, u32)> = if out_of_sequence(sem, c.level) {
        seq![(out_of_sequence_message(c.level as nat), h.line_start, h.marker_end)]
    } else {
        Seq::empty()
    };
    let body = blocks_spec(s, pos, at_level(c, sem));
    Parsed {
        events: seq![Event::Open(sem, h)] + body.events + seq![Event::Close],
        pos: body.pos,
        errs: e0 + body.errs + closing_errs(h, body.children),
        children: Seq::empty(),
    }
}

/// A delimited block whose opening delimiter `d` was just read: the blocks
/// inside it, then its closing delimiter, which is reported at the opening
/// one where it is missing.
pub open spec fn delimited_spec(s: Seq<Chunk>, pos: int, d: DelimiterLine, c: ReadCtx) -> Parsed
    decreases s.len() - pos, 4int,
{
    let body = blocks_spec(s, pos, ReadCtx { delim: Some(d.kind), ..c });
    let closed = 0 <= body.pos < s.len() && s[body.pos] is Delimiter && s[body.pos]->Delimiter_0.kind == d.kind;
    Parsed {
        events: seq![Event::Delimited(d)] + body.events + seq![Event::Close],
        pos: if closed {
            body.pos + 1
        } else {
            body.pos
        },
        errs: body.errs + if closed {
            Seq::empty()
        } else {
            seq![(never_closed_message(), d.start, d.end)]
        },
        children: Seq::empty(),
    }
}

/// The blocks read one after the other until none is left.
pub open spec fn blocks_spec(s: Seq<Chunk>, pos: int, c: ReadCtx) -> Parsed
    decreases s.len() - pos, 2int,
{
    match block_spec(s, pos, c) {
        None => nothing(pos),
        Some(b) => if pos < b.pos <= s.len() {
            then(b, blocks_spec(s, b.pos, c))
        } else {
            b
        },
    }
}

pub open spec fn leaf(start: u32, end: u32, pos: int) -> Parsed {
    Parsed {
        events: seq![Event::Block(BlockSpan { start, end })],
        pos: pos + 1,
        errs: Seq::empty(),
        children: Seq::empty(),
    }
}

/// One block: none at the end, at the closing delimiter of the delimited
/// block being read, or at a heading of level 0 or 1 (outside delimited
/// blocks) or not below the section being read; a deeper heading starts a
/// nested section, and a level 0 or 1 heading inside a delimited block is
/// read as a plain block.
pub open spec fn block_spec(s: Seq<Chunk>, pos: int, c: ReadCtx) -> Option<Parsed>
    decreases s.len() - pos, 1int,
{
    if 0 <= pos < s.len() {
        match s[pos] {
            Chunk::Block(b) => Some(leaf(b.start, b.end, pos)),
            Chunk::Heading(h) => if h.level <= 1 {
                if c.delim is Some {
                    Some(leaf(h.line_start, h.line_end, pos))
                } else {
                    None
                }
            } else if h.level <= c.level {
                None
            } else {
                match section_spec(s, pos, c, false) {
                    Some(p) => Some(Parsed { children: seq![h], ..p }),
                    None => None,
                }
            },
            Chunk::Delimiter(d) => if c.delim == Some(d.kind) {
                None
            } else {
                Some(delimited_spec(s, pos + 1, d, c))
            },
        }
    } else {
        None
    }
}

/// A section starting at `pos`, if a heading stands there: a level 0
/// heading ends the reading in a book, and is reported (and read as a
/// section) in any other document.
pub open spec fn section_spec(s: Seq<Chunk>, pos: int, c: ReadCtx, book: bool) -> Option<Parsed>
    decreases s.len() - pos, 0int,
{
    if 0 <= pos < s.len() && s[pos] is Heading {
        let h = s[pos]->Heading_0;
        if h.level == 0 && book {
            None
        } else {
            let p = peeked_spec(s, pos + 1, h, h.level, c);
            if h.level == 0 {
                Some(Parsed { errs: seq![(level0_message(), h.line_start, h.line_end)] + p.errs, ..p })
            } else {
                Some(p)
            }
        }
    } else {
        None
    }
}

/// Sections read one after the other.
pub open spec fn sections_spec(s: Seq<Chunk>, pos: int, c: ReadCtx, book: bool) -> Parsed
    decreases s.len() - pos,
{
    match section_spec(s, pos, c, book) {
        None => nothing(pos),
        Some(p) => if pos < p.pos <= s.len() {
            then(p, sections_spec(s, p.pos, c, book))
        } else {
            p
        },
    }
}

/// Blocks, then sections: the events of the preamble come first in
/// `events`, and `children` is unused.
pub open spec fn sectioned_spec(s: Seq<Chunk>, pos: int, c: ReadCtx, book: bool) -> (Parsed, Parsed) {
    let pre = blocks_spec(s, pos, c);
    (pre, sections_spec(s, pre.pos, c, book))
}

/// A special section of a book, given level 1 whatever level it is
/// written at.
pub open spec fn special_spec(s: Seq<Chunk>, pos: int, c: ReadCtx) -> Option<Parsed> {
    if is_heading(s, pos) && heading_of(s, pos).special is Some {
        Some(peeked_spec(s, pos + 1, heading_of(s, pos), 1, c))
    } else {
        None
    }
}

pub open spec fn specials_spec(s: Seq<Chunk>, pos: int, c: ReadCtx) -> Parsed
    decreases s.len() - pos,
{
    match special_spec(s, pos, c) {
        None => nothing(pos),
        Some(p) => if pos < p.pos <= s.len() {
            then(p, specials_spec(s, p.pos, c))
        } else {
            p
        },
    }
}

/// Events that are one open block and nothing else.
pub open spec fn single_open(e: Seq<Event>) -> bool {
    &&& e.len() >= 2
    &&& e[0] matches Event::Delimited(d) && d.open_block
    &&& e.last() is Close
    &&& balanced(e.subrange(1, e.len() - 1))
}

/// A part's intro that is one open block is the blocks inside it.
pub open spec fn unwrap_open(e: Seq<Event>) -> Seq<Event> {
    if single_open(e) {
        e.subrange(1, e.len() - 1)
    } else {
        e
    }
}

/// A part of a book: a level 0 heading that names no special section,
/// then a preamble (its intro, the blocks inside it where it is one open
/// block) and sections; a part without sections is reported.
pub open spec fn part_spec(s: Seq<Chunk>, pos: int, c: ReadCtx, book: bool) -> Option<
    (PartV, int, Seq<(Seq<char>, u32, u32)>),
> {
    if is_heading(s, pos) && heading_of(s, pos).level == 0 && heading_of(s, pos).special is None {
        let h = heading_of(s, pos);
        let (pre, secs) = sectioned_spec(s, pos + 1, c, book);
        let e: Seq<(Seq<char>, u32, u32)> = if secs.events.len() == 0 {
            seq![(empty_part_message(), h.line_start, h.line_end)]
        } else {
            Seq::empty()
        };
        let intro = match preamble_of(pre.events) {
            Some(p) => Some(unwrap_open(p)),
            None => None,
        };
        Some((PartV { heading: h, intro, sections: secs.events }, secs.pos, pre.errs + secs.errs + e))
    } else {
        None
    }
}

pub open spec fn parts_spec(s: Seq<Chunk>, pos: int, c: ReadCtx, book: bool) -> (Seq<PartV>, int, Seq<(Seq<char>, u32, u32)>)
    decreases s.len() - pos,
{
    match part_spec(s, pos, c, book) {
        None => (Seq::empty(), pos, Seq::empty()),
        Some(p) => if pos < p.1 <= s.len() {
            let r = parts_spec(s, p.1, c, book);
            (seq![p.0] + r.0, r.1, p.2 + r.2)
        } else {
            (seq![p.0], p.1, p.2)
        },
    }
}

/// Blocks before the rest of a book joined to the preamble that the rest
/// read.
pub open spec fn with_leading_blocks(blocks: Seq<Event>, c: DocContentV) -> DocContentV {
    match c {
        DocContentV::Sections(pre, secs) => DocContentV::Sections(
            preamble_of(
                blocks + match pre {
                    Some(p) => p,
                    None => Seq::empty(),
                },
            ),
            secs,
        ),
        DocContentV::Parts(pre, o, ps, cl) => DocContentV::Parts(
            preamble_of(
                blocks + match pre {
                    Some(p) => p,
                    None => Seq::empty(),
                },
            ),
            o,
            ps,
            cl,
        ),
        DocContentV::Blocks(b) => DocContentV::Blocks(blocks + b),
    }
}

/// The body of a book (none for other documents): special sections first;
/// then either parts (with special sections after them), or sections, or
/// blocks; blocks before parts or sections become their preamble.
pub open spec fn book_spec(s: Seq<Chunk>, pos: int, c: ReadCtx, book: bool) -> Option<
    (DocContentV, int, Seq<(Seq<char>, u32, u32)>),
>
    decreases s.len() - pos,
{
    if !book {
        None
    } else {
        let op = specials_spec(s, pos, c);
        if op.pos >= s.len() && op.events.len() > 0 {
            Some((DocContentV::Sections(None, op.events), op.pos, op.errs))
        } else {
            match part_spec(s, op.pos, c, book) {
                Some(p1) => {
                    let more = parts_spec(s, p1.1, c, book);
                    let cl = specials_spec(s, more.1, c);
                    Some(
                        (
                            DocContentV::Parts(None, op.events, seq![p1.0] + more.0, cl.events),
                            cl.pos,
                            op.errs + p1.2 + more.2 + cl.errs,
                        ),
                    )
                },
                None => if is_heading(s, op.pos) {
                    let (pre, secs) = sectioned_spec(s, op.pos, c, book);
                    Some(
                        (
                            DocContentV::Sections(preamble_of(pre.events), op.events + secs.events),
                            secs.pos,
                            op.errs + pre.errs + secs.errs,
                        ),
                    )
                } else {
                    let bl = blocks_spec(s, op.pos, c);
                    if bl.pos >= s.len() || bl.pos <= pos {
                        Some((DocContentV::Blocks(bl.events), bl.pos, op.errs + bl.errs))
                    } else {
                        match book_spec(s, bl.pos, c, book) {
                            None => Some((DocContentV::Blocks(bl.events), bl.pos, op.errs + bl.errs)),
                            Some(r) => Some((with_leading_blocks(bl.events, r.0), r.1, op.errs + bl.errs + r.2)),
                        }
                    }
                },
            }
        }
    }
}

pub open spec fn book_errs(o: Option<(DocContentV, int, Seq<(Seq<char>, u32, u32)>)>) -> Seq<(Seq<char>, u32, u32)> {
    match o {
        Some(x) => x.2,
        None => Seq::empty(),
    }
}

pub open spec fn part_errs(o: Option<(PartV, int, Seq<(Seq<char>, u32, u32)>)>) -> Seq<(Seq<char>, u32, u32)> {
    match o {
        Some(x) => x.2,
        None => Seq::empty(),
    }
}

proof fn lemma_book_prefix(s: Seq<Chunk>, pos: int, c: ReadCtx)
    ensures
        ({
            let op = specials_spec(s, pos, c);
            book_spec(s, pos, c, true) matches Some(x) && x.2 == op.errs + x.2.skip(op.errs.len() as int)
        }),
{
    let op = specials_spec(s, pos, c);
    let x = book_spec(s, pos, c, true)->Some_0;
    let e = x.2;
    assert(e.take(op.errs.len() as int) =~= op.errs);
    assert(e =~= e.take(op.errs.len() as int) + e.skip(op.errs.len() as int));
}

/// The depth reached after walking `e` from depth `d`: each `Open` goes one
/// deeper and each `Close` one back; none if a `Close` would go above the
/// start.
pub open spec fn walk(e: Seq<Event>, d: int) -> Option<int>
    decreases e.len(),
{
    if e.len() == 0 {
        Some(d)
    } else {
        match e[0] {
            Event::Open(_, _) | Event::Delimited(_) => walk(e.drop_first(), d + 1),
            Event::Close => if d > 0 {
                walk(e.drop_first(), d - 1)
            } else {
                None
            },
            Event::Block(_) => walk(e.drop_first(), d),
        }
    }
}

/// Every `Open` is matched by a later `Close`, and every `Close` by an
/// earlier `Open`.
pub open spec fn balanced(e: Seq<Event>) -> bool {
    walk(e, 0) == Some(0int)
}

pub proof fn lemma_walk_concat(a: Seq<Event>, b: Seq<Event>, d: int)
    requires
        d >= 0,
    ensures
        walk(a + b, d) == match walk(a, d) {
            Some(d1) => walk(b, d1),
            None => None,
        },
    decreases a.len(),
{
    if a.len() == 0 {
        assert(a + b =~= b);
    } else {
        assert((a + b).drop_first() =~= a.drop_first() + b);
        match a[0] {
            Event::Open(_, _) | Event::Delimited(_) => lemma_walk_concat(a.drop_first(), b, d + 1),
            Event::Close => if d > 0 {
                lemma_walk_concat(a.drop_first(), b, d - 1);
            },
            Event::Block(_) => lemma_walk_concat(a.drop_first(), b, d),
        }
    }
}

proof fn lemma_walk_shift(e: Seq<Event>, d: int)
    requires
        d >= 0,
        balanced(e),
    ensures
        walk(e, d) == Some(d),
{
    lemma_walk_shift_gen(e, 0, d);
}

proof fn lemma_walk_shift_gen(e: Seq<Event>, d0: int, k: int)
    requires
        d0 >= 0,
        k >= 0,
        walk(e, d0) is Some,
    ensures
        walk(e, d0 + k) == Some(walk(e, d0)->Some_0 + k),
    decreases e.len(),
{
    if e.len() > 0 {
        match e[0] {
            Event::Open(_, _) | Event::Delimited(_) => lemma_walk_shift_gen(e.drop_first(), d0 + 1, k),
            Event::Close => lemma_walk_shift_gen(e.drop_first(), d0 - 1, k),
            Event::Block(_) => lemma_walk_shift_gen(e.drop_first(), d0, k),
        }
    }
}

proof fn lemma_balanced_concat(a: Seq<Event>, b: Seq<Event>)
    requires
        balanced(a),
        balanced(b),
    ensures
        balanced(a + b),
{
    lemma_walk_concat(a, b, 0);
}

/// A section's or a delimited block's events open, hold balanced
/// contents, and close.
pub proof fn lemma_wrapped_balanced(open: Event, body: Seq<Event>)
    requires
        balanced(body),
        open is Open || open is Delimited,
    ensures
        balanced(seq![open] + body + seq![Event::Close]),
{
    let o = seq![open];
    let c = seq![Event::Close];
    lemma_walk_concat(o + body, c, 0);
    lemma_walk_concat(o, body, 0);
    assert(o.drop_first() =~= Seq::<Event>::empty());
    assert(c.drop_first() =~= Seq::<Event>::empty());
    assert(walk(Seq::<Event>::empty(), 1) == Some(1int));
    assert(walk(Seq::<Event>::empty(), 0) == Some(0int));
    assert(walk(o, 0) == Some(1int));
    assert(walk(c, 1) == Some(0int));
    lemma_walk_shift(body, 1);
}

pub proof fn lemma_peeked_balanced(s: Seq<Chunk>, pos: int, h: SectionHeading, sem: u8, c: ReadCtx)
    ensures
        balanced(peeked_spec(s, pos, h, sem, c).events),
    decreases s.len() - pos, 3int,
{
    lemma_blocks_balanced(s, pos, at_level(c, sem));
    lemma_wrapped_balanced(Event::Open(sem, h), blocks_spec(s, pos, at_level(c, sem)).events);
}

pub proof fn lemma_blocks_balanced(s: Seq<Chunk>, pos: int, c: ReadCtx)
    ensures
        balanced(blocks_spec(s, pos, c).events),
    decreases s.len() - pos, 2int,
{
    lemma_block_balanced(s, pos, c);
    match block_spec(s, pos, c) {
        None => {},
        Some(b) => if pos < b.pos <= s.len() {
            lemma_blocks_balanced(s, b.pos, c);
            lemma_balanced_concat(b.events, blocks_spec(s, b.pos, c).events);
        },
    }
}

proof fn lemma_leaf_balanced(start: u32, end: u32, pos: int)
    ensures
        balanced(leaf(start, end, pos).events),
{
    let e = leaf(start, end, pos).events;
    assert(e.drop_first() =~= Seq::<Event>::empty());
    assert(walk(Seq::<Event>::empty(), 0) == Some(0int));
    assert(walk(e, 0) == Some(0int));
}

pub proof fn lemma_delimited_balanced(s: Seq<Chunk>, pos: int, d: DelimiterLine, c: ReadCtx)
    ensures
        balanced(delimited_spec(s, pos, d, c).events),
    decreases s.len() - pos, 4int,
{
    lemma_blocks_balanced(s, pos, ReadCtx { delim: Some(d.kind), ..c });
    lemma_wrapped_balanced(Event::Delimited(d), blocks_spec(s, pos, ReadCtx { delim: Some(d.kind), ..c }).events);
}

pub proof fn lemma_block_balanced(s: Seq<Chunk>, pos: int, c: ReadCtx)
    ensures
        block_spec(s, pos, c) matches Some(b) ==> balanced(b.events),
    decreases s.len() - pos, 1int,
{
    if 0 <= pos < s.len() {
        match s[pos] {
            Chunk::Block(b) => lemma_leaf_balanced(b.start, b.end, pos),
            Chunk::Heading(h) => {
                if h.level <= 1 {
                    lemma_leaf_balanced(h.line_start, h.line_end, pos);
                } else if h.level > c.level {
                    lemma_section_balanced(s, pos, c, false);
                }
            },
            Chunk::Delimiter(d) => {
                if c.delim != Some(d.kind) {
                    lemma_delimited_balanced(s, pos + 1, d, c);
                }
            },
        }
    }
}

pub proof fn lemma_section_balanced(s: Seq<Chunk>, pos: int, c: ReadCtx, book: bool)
    ensures
        section_spec(s, pos, c, book) matches Some(p) ==> balanced(p.events),
    decreases s.len() - pos, 0int,
{
    if 0 <= pos < s.len() && s[pos] is Heading {
        let h = s[pos]->Heading_0;
        lemma_peeked_balanced(s, pos + 1, h, h.level, c);
    }
}

pub proof fn lemma_sections_balanced(s: Seq<Chunk>, pos: int, c: ReadCtx, book: bool)
    ensures
        balanced(sections_spec(s, pos, c, book).events),
    decreases s.len() - pos,
{
    lemma_section_balanced(s, pos, c, book);
    match section_spec(s, pos, c, book) {
        None => {},
        Some(p) => if pos < p.pos <= s.len() {
            lemma_sections_balanced(s, p.pos, c, book);
            lemma_balanced_concat(p.events, sections_spec(s, p.pos, c, book).events);
        },
    }
}

pub proof fn lemma_specials_balanced(s: Seq<Chunk>, pos: int, c: ReadCtx)
    ensures
        balanced(specials_spec(s, pos, c).events),
    decreases s.len() - pos,
{
    match special_spec(s, pos, c) {
        None => {},
        Some(p) => {
            lemma_peeked_balanced(s, pos + 1, heading_of(s, pos), 1, c);
            if pos < p.pos <= s.len() {
                lemma_specials_balanced(s, p.pos, c);
                lemma_balanced_concat(p.events, specials_spec(s, p.pos, c).events);
            }
        },
    }
}

pub open spec fn opt_balanced(o: Option<Seq<Event>>) -> bool {
    match o {
        Some(e) => balanced(e),
        None => true,
    }
}

/// Every stretch of events in a book's body is balanced.
pub open spec fn content_balanced(c: DocContentV) -> bool {
    match c {
        DocContentV::Blocks(b) => balanced(b),
        DocContentV::Sections(pre, secs) => opt_balanced(pre) && balanced(secs),
        DocContentV::Parts(pre, o, ps, cl) => {
            &&& opt_balanced(pre)
            &&& balanced(o)
            &&& balanced(cl)
            &&& forall|i: int| 0 <= i < ps.len() ==> opt_balanced(#[trigger] ps[i].intro) && balanced(ps[i].sections)
        },
    }
}

proof fn lemma_part_balanced(s: Seq<Chunk>, pos: int, c: ReadCtx, book: bool)
    ensures
        part_spec(s, pos, c, book) matches Some(p) ==> opt_balanced(p.0.intro) && balanced(p.0.sections),
{
    if is_heading(s, pos) && heading_of(s, pos).level == 0 && heading_of(s, pos).special is None {
        lemma_blocks_balanced(s, pos + 1, c);
        let pre = blocks_spec(s, pos + 1, c);
        lemma_sections_balanced(s, pre.pos, c, book);
    }
}

/// Whether `e` is one open block and nothing else.
fn is_single_open(e: &Vec<Event>) -> (r: bool)
    ensures
        r == single_open(e@),
{
    let n = e.len();
    if n < 2 {
        return false;
    }
    let first_open = match e[0] {
        Event::Delimited(d) => d.open_block,
        _ => false,
    };
    let last_close = match e[n - 1] {
        Event::Close => true,
        _ => false,
    };
    if !first_open || !last_close {
        return false;
    }
    let ghost inner = e@.subrange(1, n - 1);
    let mut depth: usize = 0;
    let mut i: usize = 1;
    assert(inner.subrange(0, inner.len() as int) =~= inner);
    while i < n - 1
        invariant
            1 <= i <= n - 1,
            n == e@.len(),
            n >= 2,
            inner == e@.subrange(1, n - 1),
            depth <= i,
            walk(inner, 0) == walk(inner.subrange(i - 1, inner.len() as int), depth as int),
        decreases n - 1 - i,
    {
        let ghost rest = inner.subrange(i - 1, inner.len() as int);
        assert(rest[0] == e@[i as int]);
        assert(rest.drop_first() =~= inner.subrange(i as int, inner.len() as int));
        match e[i] {
            Event::Open(_, _) | Event::Delimited(_) => {
                depth = depth + 1;
            },
            Event::Close => {
                if depth == 0 {
                    return false;
                }
                depth = depth - 1;
            },
            Event::Block(_) => {},
        }
        i = i + 1;
    }
    assert(inner.subrange(inner.len() as int, inner.len() as int) =~= Seq::<Event>::empty());
    depth == 0
}

fn unwrap_open_block(e: Vec<Event>) -> (r: Vec<Event>)
    ensures
        r@ == unwrap_open(e@),
{
    if is_single_open(&e) {
        let mut inner: Vec<Event> = Vec::new();
        let mut i: usize = 1;
        let n = e.len();
        while i < n - 1
            invariant
                1 <= i <= n - 1,
                n == e@.len(),
                n >= 2,
                inner@ == e@.subrange(1, i as int),
            decreases n - 1 - i,
        {
            inner.push(e[i]);
            assert(e@.subrange(1, i as int + 1) =~= e@.subrange(1, i as int).push(e@[i as int]));
            i = i + 1;
        }
        inner
    } else {
        e
    }
}

proof fn lemma_parts_balanced(s: Seq<Chunk>, pos: int, c: ReadCtx, book: bool)
    ensures
        ({
            let ps = parts_spec(s, pos, c, book).0;
            forall|i: int| 0 <= i < ps.len() ==> opt_balanced(#[trigger] ps[i].intro) && balanced(ps[i].sections)
        }),
    decreases s.len() - pos,
{
    lemma_part_balanced(s, pos, c, book);
    match part_spec(s, pos, c, book) {
        None => {},
        Some(p) => if pos < p.1 <= s.len() {
            lemma_parts_balanced(s, p.1, c, book);
            let r = parts_spec(s, p.1, c, book);
            let all = seq![p.0] + r.0;
            assert forall|i: int| 0 <= i < all.len() implies opt_balanced(#[trigger] all[i].intro) && balanced(
                all[i].sections,
            ) by {
                if i > 0 {
                    assert(all[i] == r.0[i - 1]);
                }
            }
        },
    }
}

proof fn lemma_leading_balanced(blocks: Seq<Event>, c: DocContentV)
    requires
        balanced(blocks),
        content_balanced(c),
    ensures
        content_balanced(with_leading_blocks(blocks, c)),
{
    assert(balanced(Seq::<Event>::empty())) by {
        assert(walk(Seq::<Event>::empty(), 0) == Some(0int));
    }
    match c {
        DocContentV::Sections(pre, secs) => {
            let p = match pre {
                Some(p) => p,
                None => Seq::empty(),
            };
            lemma_balanced_concat(blocks, p);
        },
        DocContentV::Parts(pre, o, ps, cl) => {
            let p = match pre {
                Some(p) => p,
                None => Seq::empty(),
            };
            lemma_balanced_concat(blocks, p);
        },
        DocContentV::Blocks(b) => {
            lemma_balanced_concat(blocks, b);
        },
    }
}

pub proof fn lemma_book_balanced(s: Seq<Chunk>, pos: int, c: ReadCtx, book: bool)
    ensures
        book_spec(s, pos, c, book) matches Some(x) ==> content_balanced(x.0),
    decreases s.len() - pos,
{
    if book {
        lemma_specials_balanced(s, pos, c);
        let op = specials_spec(s, pos, c);
        if !(op.pos >= s.len() && op.events.len() > 0) {
            match part_spec(s, op.pos, c, book) {
                Some(p1) => {
                    lemma_part_balanced(s, op.pos, c, book);
                    lemma_parts_balanced(s, p1.1, c, book);
                    let more = parts_spec(s, p1.1, c, book);
                    lemma_specials_balanced(s, more.1, c);
                    let all = seq![p1.0] + more.0;
                    assert forall|i: int| 0 <= i < all.len() implies opt_balanced(#[trigger] all[i].intro)
                        && balanced(all[i].sections) by {
                        if i > 0 {
                            assert(all[i] == more.0[i - 1]);
                        }
                    }
                },
                None => if is_heading(s, op.pos) {
                    lemma_blocks_balanced(s, op.pos, c);
                    let pre = blocks_spec(s, op.pos, c);
                    lemma_sections_balanced(s, pre.pos, c, book);
                    lemma_balanced_concat(op.events, sections_spec(s, pre.pos, c, book).events);
                } else {
                    lemma_blocks_balanced(s, op.pos, c);
                    let bl = blocks_spec(s, op.pos, c);
                    if !(bl.pos >= s.len() || bl.pos <= pos) {
                        lemma_book_balanced(s, bl.pos, c, book);
                        match book_spec(s, bl.pos, c, book) {
                            Some(r) => lemma_leading_balanced(bl.events, r.0),
                            None => {},
                        }
                    }
                },
            }
        }
    }
}

/// Every section opened in `e` stands at a level below `level` (a higher
/// number).
pub open spec fn opens_below(e: Seq<Event>, level: u8) -> bool {
    forall|i: int| 0 <= i < e.len() ==> (#[trigger] e[i] matches Event::Open(l, _) ==> l > level)
}

proof fn lemma_opens_concat(a: Seq<Event>, b: Seq<Event>, level: u8)
    requires
        opens_below(a, level),
        opens_below(b, level),
    ensures
        opens_below(a + b, level),
{
    assert forall|i: int| 0 <= i < (a + b).len() implies (#[trigger] (a + b)[i] matches Event::Open(l, _) ==> l
        > level) by {
        if i >= a.len() {
            assert((a + b)[i] == b[i - a.len()]);
        } else {
            assert((a + b)[i] == a[i]);
        }
    }
}

pub proof fn lemma_peeked_opens(s: Seq<Chunk>, pos: int, h: SectionHeading, sem: u8, c: ReadCtx, outer: u8)
    requires
        sem > outer,
    ensures
        opens_below(peeked_spec(s, pos, h, sem, c).events, outer),
    decreases s.len() - pos, 3int,
{
    lemma_blocks_opens(s, pos, at_level(c, sem));
    let body = blocks_spec(s, pos, at_level(c, sem)).events;
    let o = seq![Event::Open(sem, h)];
    let cl = seq![Event::Close];
    assert(opens_below(o, outer));
    assert(opens_below(cl, outer));
    assert forall|i: int| 0 <= i < body.len() implies (#[trigger] body[i] matches Event::Open(l, _) ==> l > outer) by {
        if let Event::Open(l, _) = body[i] {
            assert(l > sem);
        }
    }
    lemma_opens_concat(o, body, outer);
    lemma_opens_concat(o + body, cl, outer);
}

pub proof fn lemma_delimited_opens(s: Seq<Chunk>, pos: int, d: DelimiterLine, c: ReadCtx)
    ensures
        opens_below(delimited_spec(s, pos, d, c).events, c.level),
    decreases s.len() - pos, 4int,
{
    let c2 = ReadCtx { delim: Some(d.kind), ..c };
    lemma_blocks_opens(s, pos, c2);
    let body = blocks_spec(s, pos, c2).events;
    let o = seq![Event::Delimited(d)];
    let cl = seq![Event::Close];
    assert(opens_below(o, c.level));
    assert(opens_below(cl, c.level));
    lemma_opens_concat(o, body, c.level);
    lemma_opens_concat(o + body, cl, c.level);
}

pub proof fn lemma_blocks_opens(s: Seq<Chunk>, pos: int, c: ReadCtx)
    ensures
        opens_below(blocks_spec(s, pos, c).events, c.level),
    decreases s.len() - pos, 2int,
{
    lemma_block_opens(s, pos, c);
    match block_spec(s, pos, c) {
        None => {},
        Some(b) => if pos < b.pos <= s.len() {
            lemma_blocks_opens(s, b.pos, c);
            lemma_opens_concat(b.events, blocks_spec(s, b.pos, c).events, c.level);
        },
    }
}

pub proof fn lemma_block_opens(s: Seq<Chunk>, pos: int, c: ReadCtx)
    ensures
        block_spec(s, pos, c) matches Some(b) ==> opens_below(b.events, c.level),
    decreases s.len() - pos, 1int,
{
    if 0 <= pos < s.len() {
        match s[pos] {
            Chunk::Block(b) => {
                assert(opens_below(leaf(b.start, b.end, pos).events, c.level));
            },
            Chunk::Heading(h) => {
                if h.level <= 1 {
                    assert(opens_below(leaf(h.line_start, h.line_end, pos).events, c.level));
                } else if h.level > c.level {
                    lemma_peeked_opens(s, pos + 1, h, h.level, c, c.level);
                }
            },
            Chunk::Delimiter(d) => {
                if c.delim != Some(d.kind) {
                    lemma_delimited_opens(s, pos + 1, d, c);
                }
            },
        }
    }
}

/// The errors of a step that may read nothing.
pub open spec fn opt_errs(o: Option<Parsed>) -> Seq<(Seq<char>, u32, u32)> {
    match o {
        Some(p) => p.errs,
        None => Seq::empty(),
    }
}

/// How a step that meets the errors `errs` ends: in strict mode the first
/// is returned and nothing is recorded; otherwise each is recorded and the
/// step succeeds.
pub open spec fn outcome<T>(
    strict: bool,
    errs: Seq<(Seq<char>, u32, u32)>,
    r: Result<T, Diagnostic>,
    e0: Seq<Seq<char>>,
    e1: Seq<Seq<char>>,
) -> bool {
    &&& strict ==> (r is Err) == (errs.len() > 0) && (r matches Err(d) ==> diag_view(d) == errs[0]) && e1 == e0
    &&& !strict ==> r is Ok && e1 == e0 + messages(errs)
}

/// The chunks and the document type stay; the position stays in bounds and
/// does not go back.
pub open spec fn cursor_kept(a: DocCursor, b: DocCursor) -> bool {
    &&& b.chunks@ == a.chunks@
    &&& b.doctype_book == a.doctype_book
    &&& a.pos <= b.pos <= b.chunks@.len()
}

proof fn lemma_messages_add(a: Seq<(Seq<char>, u32, u32)>, b: Seq<(Seq<char>, u32, u32)>)
    ensures
        messages(a + b) == messages(a) + messages(b),
{
    assert(messages(a + b) =~= messages(a) + messages(b));
}

/// Errors met so far, `acc`, and the record of them: empty and untouched in
/// strict mode, recorded otherwise.
pub open spec fn recorded(strict: bool, e_start: Seq<Seq<char>>, acc: Seq<(Seq<char>, u32, u32)>, e: Seq<Seq<char>>) -> bool {
    &&& strict ==> acc.len() == 0 && e == e_start
    &&& !strict ==> e == e_start + messages(acc)
}

proof fn lemma_recorded_step(
    strict: bool,
    e_start: Seq<Seq<char>>,
    acc: Seq<(Seq<char>, u32, u32)>,
    x: Seq<(Seq<char>, u32, u32)>,
    e_before: Seq<Seq<char>>,
    e_after: Seq<Seq<char>>,
)
    requires
        recorded(strict, e_start, acc, e_before),
        strict ==> x.len() == 0 && e_after == e_before,
        !strict ==> e_after == e_before + messages(x),
    ensures
        recorded(strict, e_start, acc + x, e_after),
{
    lemma_messages_add(acc, x);
    if strict {
        assert(acc + x =~= acc);
    } else {
        assert(e_start + messages(acc) + messages(x) =~= e_start + (messages(acc) + messages(x)));
    }
}

proof fn lemma_first_err(acc: Seq<(Seq<char>, u32, u32)>, x: Seq<(Seq<char>, u32, u32)>, rest: Seq<(Seq<char>, u32, u32)>)
    requires
        acc.len() == 0,
        x.len() > 0,
    ensures
        (acc + x + rest)[0] == x[0],
        (acc + (x + rest))[0] == x[0],
        (acc + x + rest).len() > 0,
{
    assert(acc + x + rest =~= x + rest);
    assert(acc + (x + rest) =~= x + rest);
}

fn append_events(dst: &mut Vec<Event>, src: &Vec<Event>)
    ensures
        final(dst)@ == old(dst)@ + src@,
{
    let mut i: usize = 0;
    while i < src.len()
        invariant
            0 <= i <= src.len(),
            dst@ == old(dst)@ + src@.take(i as int),
        decreases src.len() - i,
    {
        dst.push(src[i]);
        assert(src@.take(i as int + 1) =~= src@.take(i as int).push(src@[i as int]));
        i = i + 1;
    }
    assert(src@.take(src.len() as int) =~= src@);
}

impl SpecialSection {
    /// The name this special section is reported under.
    pub fn to_str(&self) -> (r: &'static str)
        ensures
            r@ == special_name(*self),
    {
        match self {
            SpecialSection::Abstract => "abstract",
            SpecialSection::Acknowledgments => "acknowledgments",
            SpecialSection::Appendix => "appendix",
            SpecialSection::Bibliography => "bibliography",
            SpecialSection::Colophon => "colophon",
            SpecialSection::Dedication => "dedication",
            SpecialSection::Glossary => "glossary",
            SpecialSection::Index => "index",
            SpecialSection::Preface => "preface",
        }
    }

    /// Whether this special section may hold sections of its own.
    pub fn supports_subsections(&self) -> (r: bool)
        ensures
            r == supports_subsections(*self),
    {
        match self {
            SpecialSection::Appendix | SpecialSection::Preface => true,
            _ => false,
        }
    }
}

fn nested_text(sp: SpecialSection) -> (r: String)
    ensures
        r@ == nested_message(sp),
{
    let mut msg: Vec<char> = crate::text::chars_of(sp.to_str());
    crate::attr_list::append_chars(&mut msg, &crate::text::chars_of(" sections do not support nested sections"));
    crate::text::string_of(msg.as_slice())
}

impl Parser {
    /// Reads the contents of a section whose heading `h` was just read and
    /// which is given level `sem`, up to the first heading at its level or
    /// above, then restores the section level it was read in and leaves
    /// any bibliography.
    pub fn parse_peeked_section(&mut self, cur: &mut DocCursor, h: SectionHeading, sem: u8) -> (r: Result<
        Vec<Event>,
        Diagnostic,
    >)
        requires
            old(cur).pos <= old(cur).chunks@.len(),
        ensures
            ({
                let p = peeked_spec(old(cur).chunks@, old(cur).pos as int, h, sem, ctx_of(*old(cur)));
                &&& outcome(old(self).strict, p.errs, r, strings_of(old(self).errors@), strings_of(final(self).errors@))
                &&& r matches Ok(v) ==> v@ == p.events && final(cur).pos == p.pos && ctx_of(*final(cur)) == ctx_of(*old(cur)) && final(cur).bibliography_ctx == BiblioContext::Outside
            }),
            cursor_kept(*old(cur), *final(cur)),
            crate::attr_entry::only_errors_changed(*old(self), *final(self)),
        decreases old(cur).chunks@.len() - old(cur).pos, 3int,
    {
        let ghost s = cur.chunks@;
        let ghost p0 = cur.pos as int;
        let ghost e_start = strings_of(self.errors@);
        let ghost self0 = *self;
        let last_level = cur.section_level;
        let ghost c0 = ctx_of(*cur);
        let ghost bs = blocks_spec(s, p0, at_level(c0, sem));
        cur.section_level = sem;
        let ghost mut e0: Seq<(Seq<char>, u32, u32)> = Seq::empty();
        if sem > last_level && sem - last_level > 1 {
            let msg = crate::toc::out_of_sequence_text(last_level);
            proof {
                e0 = seq![(msg@, h.line_start, h.marker_end)];
            }
            match self.report(msg, h.line_start, h.marker_end) {
                Err(d) => {
                    assert((e0 + bs.errs + closing_errs(h, bs.children))[0] == e0[0]);
                    return Err(d);
                },
                Ok(()) => {},
            }
        }
        assert(e0 == (if out_of_sequence(sem, c0.level) {
            seq![(out_of_sequence_message(c0.level as nat), h.line_start, h.marker_end)]
        } else {
            Seq::<(Seq<char>, u32, u32)>::empty()
        }));
        assert(peeked_spec(s, p0, h, sem, c0).errs == e0 + bs.errs + closing_errs(h, bs.children));
        assert(peeked_spec(s, p0, h, sem, c0).events == seq![Event::Open(sem, h)] + bs.events + seq![
            Event::Close,
        ]);
        assert(peeked_spec(s, p0, h, sem, c0).pos == bs.pos);
        if h.bibliography {
            cur.bibliography_ctx = BiblioContext::Section;
        }
        let ghost e_mid = strings_of(self.errors@);
        let mut events: Vec<Event> = Vec::new();
        events.push(Event::Open(sem, h));
        let mut children: Vec<SectionHeading> = Vec::new();
        let ghost mut acc_ev: Seq<Event> = Seq::empty();
        let ghost mut acc_errs: Seq<(Seq<char>, u32, u32)> = Seq::empty();
        assert(events@ =~= seq![Event::Open(sem, h)] + acc_ev);
        assert(bs.events =~= acc_ev + bs.events);
        assert(bs.errs =~= acc_errs + bs.errs);
        assert(bs.children =~= children@ + bs.children);
        assert(messages(acc_errs) =~= Seq::<Seq<char>>::empty());
        assert(e_mid =~= e_mid + messages(acc_errs));
        proof {
            lemma_messages_add(Seq::empty(), e0);
            assert(messages(Seq::<(Seq<char>, u32, u32)>::empty()) =~= Seq::<Seq<char>>::empty());
            assert(e_start + messages(Seq::<(Seq<char>, u32, u32)>::empty()) =~= e_start);
        }
        loop
            invariant
                cur.chunks@ == s,
                cur.doctype_book == old(cur).doctype_book,
                p0 <= cur.pos <= s.len(),
                cur.section_level == sem,
                p0 == old(cur).pos,
                s == old(cur).chunks@,
                bs == blocks_spec(s, p0, at_level(c0, sem)),
                last_level == old(cur).section_level,
                c0 == ctx_of(*old(cur)),
                cur.delimiter == c0.delim,
                peeked_spec(s, p0, h, sem, c0).errs == e0 + bs.errs + closing_errs(h, bs.children),
                peeked_spec(s, p0, h, sem, c0).events == seq![Event::Open(sem, h)] + bs.events + seq![
                    Event::Close,
                ],
                peeked_spec(s, p0, h, sem, c0).pos == bs.pos,
                crate::attr_entry::only_errors_changed(self0, *self),
                self0 == *old(self),
                e_start == strings_of(old(self).errors@),
                events@ == seq![Event::Open(sem, h)] + acc_ev,
                bs.events == acc_ev + blocks_spec(s, cur.pos as int, at_level(c0, sem)).events,
                bs.errs == acc_errs + blocks_spec(s, cur.pos as int, at_level(c0, sem)).errs,
                bs.children == children@ + blocks_spec(s, cur.pos as int, at_level(c0, sem)).children,
                bs.pos == blocks_spec(s, cur.pos as int, at_level(c0, sem)).pos,
                self.strict ==> acc_errs.len() == 0 && strings_of(self.errors@) == e_mid && e0.len() == 0,
                !self.strict ==> strings_of(self.errors@) == e_mid + messages(acc_errs),
                !self.strict ==> e_mid == e_start + messages(e0),
                self.strict ==> e_mid == e_start,
            ensures
                bs.events == acc_ev,
                bs.errs == acc_errs,
                bs.children == children@,
                bs.pos == cur.pos,
            decreases s.len() - cur.pos,
        {
            let ghost pos_before = cur.pos as int;
            let ghost errs_before = strings_of(self.errors@);
            let r = self.parse_block(cur);
            match r {
                Err(d) => {
                    proof {
                        let b = block_spec(s, pos_before, at_level(c0, sem))->Some_0;
                        let rest = blocks_spec(s, pos_before, at_level(c0, sem));
                        assert(rest.errs[0] == b.errs[0]);
                        assert(bs.errs =~= rest.errs);
                        let all = e0 + bs.errs + closing_errs(h, bs.children);
                        assert(diag_view(d) == b.errs[0]);
                        assert(all[0] == bs.errs[0]);
                        assert(diag_view(d) == all[0]);
                        assert(peeked_spec(s, p0, h, sem, c0).errs == all);
                    }
                    return Err(d);
                },
                Ok(None) => {
                    proof {
                        let rest = blocks_spec(s, cur.pos as int, at_level(c0, sem));
                        assert(rest == nothing(cur.pos as int));
                        assert(acc_ev + rest.events =~= acc_ev);
                        assert(acc_errs + rest.errs =~= acc_errs);
                        assert(children@ + rest.children =~= children@);
                    }
                    break ;
                },
                Ok(Some(v)) => {
                    let ghost b = block_spec(s, pos_before, at_level(c0, sem))->Some_0;
                    let ghost rest = blocks_spec(s, cur.pos as int, at_level(c0, sem));
                    assert(blocks_spec(s, pos_before, at_level(c0, sem)) == then(b, rest));
                    let ghost ch0 = children@;
                    let mut i: usize = 0;
                    let ghost ev0 = events@;
                    while i < v.len()
                        invariant
                            0 <= i <= v.len(),
                            events@ == ev0 + v@.take(i as int),
                        decreases v.len() - i,
                    {
                        events.push(v[i]);
                        assert(v@.take(i as int + 1) =~= v@.take(i as int).push(v@[i as int]));
                        i = i + 1;
                    }
                    assert(v@.take(v.len() as int) =~= v@);
                    if let Event::Open(_, ch) = v[0] {
                        children.push(ch);
                    }
                    proof {
                        assert(children@ =~= ch0 + b.children);
                        assert(ch0 + b.children + rest.children =~= ch0 + (b.children + rest.children));
                        assert(acc_ev + b.events + rest.events =~= acc_ev + (b.events + rest.events));
                        assert(acc_errs + b.errs + rest.errs =~= acc_errs + (b.errs + rest.errs));
                        assert(events@ =~= seq![Event::Open(sem, h)] + (acc_ev + b.events));
                        lemma_messages_add(acc_errs, b.errs);
                        if !self.strict {
                            assert(e_mid + messages(acc_errs) + messages(b.errs) =~= e_mid + (messages(acc_errs)
                                + messages(b.errs)));
                        } else {
                            assert(acc_errs + b.errs =~= acc_errs);
                        }
                        acc_ev = acc_ev + b.events;
                        acc_errs = acc_errs + b.errs;
                    }
                },
            }
        }
        let ghost e_body = strings_of(self.errors@);
        assert(self.strict ==> bs.errs.len() == 0);
        let ghost closing = closing_errs(h, bs.children);
        let mut nested_reported: bool = false;
        if let Some(sp) = h.special {
            if !sp.supports_subsections() {
                nested_reported = true;
                let mut k: usize = 0;
                while k < children.len()
                    invariant
                        0 <= k <= children.len(),
                        children@ == bs.children,
                        last_level == old(cur).section_level,
                        c0 == ctx_of(*old(cur)),
                        cur.delimiter == c0.delim,
                        cur.chunks@ == s,
                        cur.doctype_book == old(cur).doctype_book,
                        p0 <= cur.pos <= s.len(),
                        p0 == old(cur).pos,
                        s == old(cur).chunks@,
                        self0 == *old(self),
                        e_start == strings_of(old(self).errors@),
                        self.strict ==> e_body == e_start,
                        peeked_spec(s, p0, h, sem, c0).errs == e0 + bs.errs + closing,
                        closing == nested_errs(sp, bs.children),
                        crate::attr_entry::only_errors_changed(self0, *self),
                        self.strict ==> strings_of(self.errors@) == e_body && k == 0 && e0.len() == 0
                            && bs.errs.len() == 0,
                        !self.strict ==> strings_of(self.errors@) == e_body + messages(closing.take(k as int)),
                    decreases children.len() - k,
                {
                    let ch = children[k];
                    let ghost errs_k = strings_of(self.errors@);
                    match self.report(nested_text(sp), ch.text_start, ch.line_end) {
                        Err(d) => {
                            proof {
                                let all = e0 + bs.errs + closing;
                                assert(closing[k as int] == (nested_message(sp), ch.text_start, ch.line_end));
                                assert(all =~= closing);
                            }
                            return Err(d);
                        },
                        Ok(()) => {},
                    }
                    proof {
                        assert(closing.take(k as int + 1) =~= closing.take(k as int).push(closing[k as int]));
                        lemma_messages_add(closing.take(k as int), seq![closing[k as int]]);
                        assert(closing.take(k as int).push(closing[k as int]) =~= closing.take(k as int) + seq![
                            closing[k as int],
                        ]);
                        assert(messages(seq![closing[k as int]]) =~= seq![closing[k as int].0]);
                    }
                    k = k + 1;
                }
                assert(closing.take(children.len() as int) =~= closing);
            }
        }
        proof {
            if !nested_reported {
                assert(closing =~= Seq::<(Seq<char>, u32, u32)>::empty());
                assert(e_body + messages(closing) =~= e_body);
            }
            let all = e0 + bs.errs + closing;
            if self.strict {
                assert(all =~= closing);
                assert(closing.len() == 0);
            } else {
                lemma_messages_add(e0 + bs.errs, closing);
                lemma_messages_add(e0, bs.errs);
                assert(e_start + messages(all) =~= e_start + messages(e0) + messages(acc_errs) + messages(closing));
            }
        }
        cur.bibliography_ctx = BiblioContext::Outside;
        cur.section_level = last_level;
        events.push(Event::Close);
        assert(events@ =~= seq![Event::Open(sem, h)] + bs.events + seq![Event::Close]);
        Ok(events)
    }

    /// One block of the section (or delimited block) being read, if one is
    /// left: none at a heading not below the section, at a level 0 or 1
    /// heading outside delimited blocks, or at the closing delimiter; a
    /// deeper heading is read as a nested section, an opening delimiter as
    /// a delimited block, and a level 0 or 1 heading inside a delimited
    /// block as a plain block.
    pub fn parse_block(&mut self, cur: &mut DocCursor) -> (r: Result<Option<Vec<Event>>, Diagnostic>)
        requires
            old(cur).pos <= old(cur).chunks@.len(),
        ensures
            ({
                let o = block_spec(old(cur).chunks@, old(cur).pos as int, ctx_of(*old(cur)));
                &&& outcome(old(self).strict, opt_errs(o), r, strings_of(old(self).errors@), strings_of(final(self).errors@))
                &&& r matches Ok(None) ==> o is None && final(cur).pos == old(cur).pos
                    && final(cur).bibliography_ctx == old(cur).bibliography_ctx
                &&& r matches Ok(Some(v)) ==> o matches Some(b) && v@ == b.events && final(cur).pos == b.pos
                    && old(cur).pos < final(cur).pos && v@.len() > 0
                    && b.children == (if v@[0] is Open { seq![v@[0]->Open_1] } else { Seq::<SectionHeading>::empty() })
                &&& r is Ok ==> ctx_of(*final(cur)) == ctx_of(*old(cur))
            }),
            cursor_kept(*old(cur), *final(cur)),
            crate::attr_entry::only_errors_changed(*old(self), *final(self)),
        decreases old(cur).chunks@.len() - old(cur).pos, 1int,
    {
        if cur.pos >= cur.chunks.len() {
            return Ok(None);
        }
        let c = cur.chunks[cur.pos];
        match c {
            Chunk::Block(b) => {
                cur.pos = cur.pos + 1;
                let mut v: Vec<Event> = Vec::new();
                v.push(Event::Block(b));
                assert(v@ =~= seq![Event::Block(b)]);
                Ok(Some(v))
            },
            Chunk::Heading(h) => {
                if h.level <= 1 {
                    if cur.delimiter.is_some() {
                        cur.pos = cur.pos + 1;
                        let mut v: Vec<Event> = Vec::new();
                        v.push(Event::Block(BlockSpan { start: h.line_start, end: h.line_end }));
                        assert(v@ =~= seq![Event::Block(BlockSpan { start: h.line_start, end: h.line_end })]);
                        Ok(Some(v))
                    } else {
                        Ok(None)
                    }
                } else if h.level <= cur.section_level {
                    Ok(None)
                } else {
                    match self.parse_section(cur) {
                        Err(d) => Err(d),
                        Ok(None) => Ok(None),
                        Ok(Some(v)) => Ok(Some(v)),
                    }
                }
            },
            Chunk::Delimiter(d) => {
                if cur.delimiter == Some(d.kind) {
                    Ok(None)
                } else {
                    cur.pos = cur.pos + 1;
                    match self.parse_delimited_block(cur, d) {
                        Err(e) => Err(e),
                        Ok(v) => Ok(Some(v)),
                    }
                }
            },
        }
    }

    /// A delimited block whose opening delimiter `d` was just read: the
    /// blocks inside it up to its closing delimiter, which is reported at
    /// the opening one where it is missing; the delimited block it stands
    /// in is then restored.
    pub fn parse_delimited_block(&mut self, cur: &mut DocCursor, d: DelimiterLine) -> (r: Result<
        Vec<Event>,
        Diagnostic,
    >)
        requires
            old(cur).pos <= old(cur).chunks@.len(),
        ensures
            ({
                let p = delimited_spec(old(cur).chunks@, old(cur).pos as int, d, ctx_of(*old(cur)));
                &&& outcome(old(self).strict, p.errs, r, strings_of(old(self).errors@), strings_of(final(self).errors@))
                &&& r matches Ok(v) ==> v@ == p.events && final(cur).pos == p.pos && ctx_of(*final(cur)) == ctx_of(
                    *old(cur),
                )
            }),
            cursor_kept(*old(cur), *final(cur)),
            crate::attr_entry::only_errors_changed(*old(self), *final(self)),
        decreases old(cur).chunks@.len() - old(cur).pos, 4int,
    {
        let ghost s = cur.chunks@;
        let ghost c0 = ctx_of(*cur);
        let ghost e_start = strings_of(self.errors@);
        let ghost body = blocks_spec(s, cur.pos as int, ReadCtx { delim: Some(d.kind), ..c0 });
        let prev = cur.delimiter;
        cur.delimiter = Some(d.kind);
        assert(ctx_of(*cur) == ReadCtx { delim: Some(d.kind), ..c0 });
        let inner = match self.parse_blocks(cur) {
            Err(e) => {
                proof {
                    lemma_first_err(Seq::empty(), body.errs, Seq::empty());
                    assert(body.errs =~= delimited_spec(s, old(cur).pos as int, d, c0).errs.take(body.errs.len() as int));
                    assert(delimited_spec(s, old(cur).pos as int, d, c0).errs[0] == body.errs[0]);
                }
                return Err(e);
            },
            Ok(v) => v,
        };
        let mut events: Vec<Event> = Vec::new();
        events.push(Event::Delimited(d));
        append_events(&mut events, &inner);
        events.push(Event::Close);
        assert(events@ =~= seq![Event::Delimited(d)] + body.events + seq![Event::Close]);
        let mut closed = false;
        if cur.pos < cur.chunks.len() {
            if let Chunk::Delimiter(e) = cur.chunks[cur.pos] {
                if e.kind == d.kind {
                    closed = true;
                }
            }
        }
        let ghost e_mid = strings_of(self.errors@);
        assert(closed == (0 <= body.pos < s.len() && s[body.pos] is Delimiter && s[body.pos]->Delimiter_0.kind == d.kind));
        if closed {
            cur.pos = cur.pos + 1;
            proof {
                assert(body.errs + Seq::<(Seq<char>, u32, u32)>::empty() =~= body.errs);
            }
        } else {
            match self.report(
                crate::text::string_of(crate::text::chars_of("This delimiter was never closed").as_slice()),
                d.start,
                d.end,
            ) {
                Err(e) => {
                    proof {
                        assert(body.errs + seq![(never_closed_message(), d.start, d.end)] =~= seq![
                            (never_closed_message(), d.start, d.end),
                        ]);
                    }
                    return Err(e);
                },
                Ok(()) => {},
            }
            proof {
                if !self.strict {
                    let x = seq![(never_closed_message(), d.start, d.end)];
                    lemma_messages_add(body.errs, x);
                    assert(messages(x) =~= seq![never_closed_message()]);
                    assert(strings_of(self.errors@) =~= e_mid + messages(x));
                    assert(e_start + messages(body.errs) + messages(x) =~= e_start + (messages(body.errs) + messages(
                        x,
                    )));
                } else {
                    assert(body.errs + seq![(never_closed_message(), d.start, d.end)] =~= seq![
                        (never_closed_message(), d.start, d.end),
                    ]);
                }
            }
        }
        cur.delimiter = prev;
        Ok(events)
    }

    /// A section, if a heading starts at the current chunk: a level 0
    /// heading ends the reading in a book and is reported in any other
    /// document.
    pub fn parse_section(&mut self, cur: &mut DocCursor) -> (r: Result<Option<Vec<Event>>, Diagnostic>)
        requires
            old(cur).pos <= old(cur).chunks@.len(),
        ensures
            ({
                let o = section_spec(old(cur).chunks@, old(cur).pos as int, ctx_of(*old(cur)), old(cur).doctype_book);
                &&& outcome(old(self).strict, opt_errs(o), r, strings_of(old(self).errors@), strings_of(final(self).errors@))
                &&& r matches Ok(None) ==> o is None && final(cur).pos == old(cur).pos
                    && final(cur).bibliography_ctx == old(cur).bibliography_ctx
                &&& r matches Ok(Some(v)) ==> o matches Some(b) && v@ == b.events && final(cur).pos == b.pos
                    && old(cur).pos < final(cur).pos && final(cur).bibliography_ctx == BiblioContext::Outside
                &&& r is Ok ==> ctx_of(*final(cur)) == ctx_of(*old(cur))
            }),
            cursor_kept(*old(cur), *final(cur)),
            crate::attr_entry::only_errors_changed(*old(self), *final(self)),
        decreases old(cur).chunks@.len() - old(cur).pos, 0int,
    {
        if cur.pos >= cur.chunks.len() {
            return Ok(None);
        }
        let c = cur.chunks[cur.pos];
        let h = match c {
            Chunk::Heading(h) => h,
            _ => {
                return Ok(None);
            },
        };
        if h.level == 0 && cur.doctype_book {
            return Ok(None);
        }
        let ghost e0: Seq<(Seq<char>, u32, u32)> = if h.level == 0 {
            seq![(level0_message(), h.line_start, h.line_end)]
        } else {
            Seq::empty()
        };
        let ghost p = peeked_spec(cur.chunks@, cur.pos as int + 1, h, h.level, ctx_of(*cur));
        if h.level == 0 {
            match self.report(
                crate::text::string_of(crate::text::chars_of("Level 0 section allowed only in doctype=book").as_slice()),
                h.line_start,
                h.line_end,
            ) {
                Err(d) => {
                    assert((e0 + p.errs)[0] == e0[0]);
                    return Err(d);
                },
                Ok(()) => {},
            }
        }
        cur.pos = cur.pos + 1;
        let ghost e_mid = strings_of(self.errors@);
        proof {
            if h.level == 0 && !self.strict {
                assert(messages(e0) =~= seq![level0_message()]);
            }
            if h.level != 0 {
                assert(messages(e0) =~= Seq::<Seq<char>>::empty());
            }
            assert(!self.strict ==> e_mid =~= strings_of(old(self).errors@) + messages(e0));
        }
        match self.parse_peeked_section(cur, h, h.level) {
            Err(d) => {
                assert(e0.len() == 0);
                assert((e0 + p.errs) =~= p.errs);
                Err(d)
            },
            Ok(v) => {
                proof {
                    lemma_messages_add(e0, p.errs);
                    if !self.strict {
                        assert(e_mid + messages(p.errs) =~= strings_of(old(self).errors@) + (messages(e0) + messages(
                            p.errs,
                        )));
                    }
                    if h.level != 0 {
                        assert(e0 + p.errs =~= p.errs);
                    }
                }
                Ok(Some(v))
            },
        }
    }
}

impl Parser {
    /// Blocks of the section being read, one after the other, until none
    /// is left at its level.
    fn parse_blocks(&mut self, cur: &mut DocCursor) -> (r: Result<Vec<Event>, Diagnostic>)
        requires
            old(cur).pos <= old(cur).chunks@.len(),
        ensures
            ({
                let b = blocks_spec(old(cur).chunks@, old(cur).pos as int, ctx_of(*old(cur)));
                &&& outcome(old(self).strict, b.errs, r, strings_of(old(self).errors@), strings_of(final(self).errors@))
                &&& r matches Ok(v) ==> v@ == b.events && final(cur).pos == b.pos && ctx_of(*final(cur)) == ctx_of(*old(cur))
            }),
            cursor_kept(*old(cur), *final(cur)),
            crate::attr_entry::only_errors_changed(*old(self), *final(self)),
        decreases old(cur).chunks@.len() - old(cur).pos, 2int,
    {
        let ghost s = cur.chunks@;
        let ghost p0 = cur.pos as int;
        let ghost lvl = ctx_of(*cur);
        let ghost total = blocks_spec(s, p0, lvl);
        let ghost e_start = strings_of(self.errors@);
        let ghost self0 = *self;
        let mut out: Vec<Event> = Vec::new();
        let ghost mut acc: Seq<(Seq<char>, u32, u32)> = Seq::empty();
        assert(total.events =~= out@ + total.events);
        assert(total.errs =~= acc + total.errs);
        assert(messages(acc) =~= Seq::<Seq<char>>::empty());
        assert(e_start =~= e_start + messages(acc));
        loop
            invariant
                cur.chunks@ == s,
                s == old(cur).chunks@,
                p0 == old(cur).pos,
                cur.doctype_book == old(cur).doctype_book,
                p0 <= cur.pos <= s.len(),
                ctx_of(*cur) == lvl,
                lvl == ctx_of(*old(cur)),
                total == blocks_spec(s, p0, lvl),
                self0 == *old(self),
                e_start == strings_of(old(self).errors@),
                crate::attr_entry::only_errors_changed(self0, *self),
                total.events == out@ + blocks_spec(s, cur.pos as int, lvl).events,
                total.errs == acc + blocks_spec(s, cur.pos as int, lvl).errs,
                total.pos == blocks_spec(s, cur.pos as int, lvl).pos,
                recorded(self.strict, e_start, acc, strings_of(self.errors@)),
            ensures
                total.events == out@,
                total.errs == acc,
                total.pos == cur.pos,
            decreases s.len() - cur.pos,
        {
            let ghost pos_before = cur.pos as int;
            let ghost e_before = strings_of(self.errors@);
            match self.parse_block(cur) {
                Err(d) => {
                    proof {
                        let b = block_spec(s, pos_before, lvl)->Some_0;
                        let rest = blocks_spec(s, pos_before, lvl);
                        assert(rest.errs[0] == b.errs[0]);
                        lemma_first_err(acc, rest.errs, Seq::empty());
                        assert(total.errs =~= acc + rest.errs);
                    }
                    return Err(d);
                },
                Ok(None) => {
                    proof {
                        let rest = blocks_spec(s, cur.pos as int, lvl);
                        assert(rest == nothing(cur.pos as int));
                        assert(out@ + rest.events =~= out@);
                        assert(acc + rest.errs =~= acc);
                    }
                    break ;
                },
                Ok(Some(v)) => {
                    let ghost b = block_spec(s, pos_before, lvl)->Some_0;
                    let ghost rest = blocks_spec(s, cur.pos as int, lvl);
                    assert(blocks_spec(s, pos_before, lvl) == then(b, rest));
                    let ghost out0 = out@;
                    append_events(&mut out, &v);
                    proof {
                        assert(out0 + b.events + rest.events =~= out0 + (b.events + rest.events));
                        assert(acc + b.errs + rest.errs =~= acc + (b.errs + rest.errs));
                        lemma_recorded_step(self.strict, e_start, acc, b.errs, e_before, strings_of(self.errors@));
                        acc = acc + b.errs;
                    }
                },
            }
        }
        Ok(out)
    }

    /// Sections at the level being read, one after the other.
    fn parse_sections(&mut self, cur: &mut DocCursor) -> (r: Result<Vec<Event>, Diagnostic>)
        requires
            old(cur).pos <= old(cur).chunks@.len(),
        ensures
            ({
                let b = sections_spec(old(cur).chunks@, old(cur).pos as int, ctx_of(*old(cur)), old(cur).doctype_book);
                &&& outcome(old(self).strict, b.errs, r, strings_of(old(self).errors@), strings_of(final(self).errors@))
                &&& r matches Ok(v) ==> v@ == b.events && final(cur).pos == b.pos && ctx_of(*final(cur)) == ctx_of(*old(cur))
            }),
            cursor_kept(*old(cur), *final(cur)),
            crate::attr_entry::only_errors_changed(*old(self), *final(self)),
    {
        let ghost s = cur.chunks@;
        let ghost p0 = cur.pos as int;
        let ghost lvl = ctx_of(*cur);
        let ghost book = cur.doctype_book;
        let ghost total = sections_spec(s, p0, lvl, book);
        let ghost e_start = strings_of(self.errors@);
        let ghost self0 = *self;
        let mut out: Vec<Event> = Vec::new();
        let ghost mut acc: Seq<(Seq<char>, u32, u32)> = Seq::empty();
        assert(total.events =~= out@ + total.events);
        assert(total.errs =~= acc + total.errs);
        assert(messages(acc) =~= Seq::<Seq<char>>::empty());
        assert(e_start =~= e_start + messages(acc));
        loop
            invariant
                cur.chunks@ == s,
                s == old(cur).chunks@,
                p0 == old(cur).pos,
                cur.doctype_book == book,
                book == old(cur).doctype_book,
                p0 <= cur.pos <= s.len(),
                ctx_of(*cur) == lvl,
                lvl == ctx_of(*old(cur)),
                total == sections_spec(s, p0, lvl, book),
                self0 == *old(self),
                e_start == strings_of(old(self).errors@),
                crate::attr_entry::only_errors_changed(self0, *self),
                total.events == out@ + sections_spec(s, cur.pos as int, lvl, book).events,
                total.errs == acc + sections_spec(s, cur.pos as int, lvl, book).errs,
                total.pos == sections_spec(s, cur.pos as int, lvl, book).pos,
                recorded(self.strict, e_start, acc, strings_of(self.errors@)),
            ensures
                total.events == out@,
                total.errs == acc,
                total.pos == cur.pos,
            decreases s.len() - cur.pos,
        {
            let ghost pos_before = cur.pos as int;
            let ghost e_before = strings_of(self.errors@);
            match self.parse_section(cur) {
                Err(d) => {
                    proof {
                        let b = section_spec(s, pos_before, lvl, book)->Some_0;
                        let rest = sections_spec(s, pos_before, lvl, book);
                        assert(rest.errs[0] == b.errs[0]);
                        lemma_first_err(acc, rest.errs, Seq::empty());
                        assert(total.errs =~= acc + rest.errs);
                    }
                    return Err(d);
                },
                Ok(None) => {
                    proof {
                        let rest = sections_spec(s, cur.pos as int, lvl, book);
                        assert(rest == nothing(cur.pos as int));
                        assert(out@ + rest.events =~= out@);
                        assert(acc + rest.errs =~= acc);
                    }
                    break ;
                },
                Ok(Some(v)) => {
                    let ghost b = section_spec(s, pos_before, lvl, book)->Some_0;
                    let ghost rest = sections_spec(s, cur.pos as int, lvl, book);
                    assert(sections_spec(s, pos_before, lvl, book) == then(b, rest));
                    let ghost out0 = out@;
                    append_events(&mut out, &v);
                    proof {
                        assert(out0 + b.events + rest.events =~= out0 + (b.events + rest.events));
                        assert(acc + b.errs + rest.errs =~= acc + (b.errs + rest.errs));
                        lemma_recorded_step(self.strict, e_start, acc, b.errs, e_before, strings_of(self.errors@));
                        acc = acc + b.errs;
                    }
                },
            }
        }
        Ok(out)
    }
}

impl Parser {
    /// A special section of a book, if one starts at the current chunk: it
    /// is given level 1 whatever level it is written at.
    pub fn parse_special_sect(&mut self, cur: &mut DocCursor) -> (r: Result<Option<Vec<Event>>, Diagnostic>)
        requires
            old(cur).pos <= old(cur).chunks@.len(),
        ensures
            ({
                let o = special_spec(old(cur).chunks@, old(cur).pos as int, ctx_of(*old(cur)));
                &&& outcome(old(self).strict, opt_errs(o), r, strings_of(old(self).errors@), strings_of(final(self).errors@))
                &&& r matches Ok(None) ==> o is None && final(cur).pos == old(cur).pos
                &&& r matches Ok(Some(v)) ==> o matches Some(b) && v@ == b.events && final(cur).pos == b.pos
                    && old(cur).pos < final(cur).pos
                &&& r is Ok ==> ctx_of(*final(cur)) == ctx_of(*old(cur))
            }),
            cursor_kept(*old(cur), *final(cur)),
            crate::attr_entry::only_errors_changed(*old(self), *final(self)),
    {
        if cur.pos >= cur.chunks.len() {
            return Ok(None);
        }
        let c = cur.chunks[cur.pos];
        match c {
            Chunk::Heading(h) => {
                if h.special.is_none() {
                    return Ok(None);
                }
                cur.pos = cur.pos + 1;
                match self.parse_peeked_section(cur, h, 1) {
                    Err(d) => Err(d),
                    Ok(v) => Ok(Some(v)),
                }
            },
            _ => Ok(None),
        }
    }

    fn parse_special_sects(&mut self, cur: &mut DocCursor) -> (r: Result<Vec<Event>, Diagnostic>)
        requires
            old(cur).pos <= old(cur).chunks@.len(),
        ensures
            ({
                let b = specials_spec(old(cur).chunks@, old(cur).pos as int, ctx_of(*old(cur)));
                &&& outcome(old(self).strict, b.errs, r, strings_of(old(self).errors@), strings_of(final(self).errors@))
                &&& r matches Ok(v) ==> v@ == b.events && final(cur).pos == b.pos && ctx_of(*final(cur)) == ctx_of(*old(cur))
            }),
            cursor_kept(*old(cur), *final(cur)),
            crate::attr_entry::only_errors_changed(*old(self), *final(self)),
    {
        let ghost s = cur.chunks@;
        let ghost p0 = cur.pos as int;
        let ghost lvl = ctx_of(*cur);
        let ghost total = specials_spec(s, p0, lvl);
        let ghost e_start = strings_of(self.errors@);
        let ghost self0 = *self;
        let mut out: Vec<Event> = Vec::new();
        let ghost mut acc: Seq<(Seq<char>, u32, u32)> = Seq::empty();
        assert(total.events =~= out@ + total.events);
        assert(total.errs =~= acc + total.errs);
        assert(messages(acc) =~= Seq::<Seq<char>>::empty());
        assert(e_start =~= e_start + messages(acc));
        loop
            invariant
                cur.chunks@ == s,
                s == old(cur).chunks@,
                p0 == old(cur).pos,
                cur.doctype_book == old(cur).doctype_book,
                p0 <= cur.pos <= s.len(),
                ctx_of(*cur) == lvl,
                lvl == ctx_of(*old(cur)),
                total == specials_spec(s, p0, lvl),
                self0 == *old(self),
                e_start == strings_of(old(self).errors@),
                crate::attr_entry::only_errors_changed(self0, *self),
                total.events == out@ + specials_spec(s, cur.pos as int, lvl).events,
                total.errs == acc + specials_spec(s, cur.pos as int, lvl).errs,
                total.pos == specials_spec(s, cur.pos as int, lvl).pos,
                recorded(self.strict, e_start, acc, strings_of(self.errors@)),
            ensures
                total.events == out@,
                total.errs == acc,
                total.pos == cur.pos,
            decreases s.len() - cur.pos,
        {
            let ghost pos_before = cur.pos as int;
            let ghost e_before = strings_of(self.errors@);
            match self.parse_special_sect(cur) {
                Err(d) => {
                    proof {
                        let b = special_spec(s, pos_before, lvl)->Some_0;
                        let rest = specials_spec(s, pos_before, lvl);
                        assert(rest.errs[0] == b.errs[0]);
                        lemma_first_err(acc, rest.errs, Seq::empty());
                        assert(total.errs =~= acc + rest.errs);
                    }
                    return Err(d);
                },
                Ok(None) => {
                    proof {
                        let rest = specials_spec(s, cur.pos as int, lvl);
                        assert(rest == nothing(cur.pos as int));
                        assert(out@ + rest.events =~= out@);
                        assert(acc + rest.errs =~= acc);
                    }
                    break ;
                },
                Ok(Some(v)) => {
                    let ghost b = special_spec(s, pos_before, lvl)->Some_0;
                    let ghost rest = specials_spec(s, cur.pos as int, lvl);
                    assert(specials_spec(s, pos_before, lvl) == then(b, rest));
                    let ghost out0 = out@;
                    append_events(&mut out, &v);
                    proof {
                        assert(out0 + b.events + rest.events =~= out0 + (b.events + rest.events));
                        assert(acc + b.errs + rest.errs =~= acc + (b.errs + rest.errs));
                        lemma_recorded_step(self.strict, e_start, acc, b.errs, e_before, strings_of(self.errors@));
                        acc = acc + b.errs;
                    }
                },
            }
        }
        Ok(out)
    }

    /// Blocks, then sections: a preamble (none when there are no blocks)
    /// and the sections after it.
    pub fn parse_sectioned(&mut self, cur: &mut DocCursor) -> (r: Result<Sectioned, Diagnostic>)
        requires
            old(cur).pos <= old(cur).chunks@.len(),
        ensures
            ({
                let (pre, secs) = sectioned_spec(
                    old(cur).chunks@,
                    old(cur).pos as int,
                    ctx_of(*old(cur)),
                    old(cur).doctype_book,
                );
                &&& outcome(
                    old(self).strict,
                    pre.errs + secs.errs,
                    r,
                    strings_of(old(self).errors@),
                    strings_of(final(self).errors@),
                )
                &&& r matches Ok(v) ==> opt_events(v.preamble) == preamble_of(pre.events) && v.sections@
                    == secs.events && final(cur).pos == secs.pos && ctx_of(*final(cur)) == ctx_of(*old(cur))
            }),
            cursor_kept(*old(cur), *final(cur)),
            crate::attr_entry::only_errors_changed(*old(self), *final(self)),
    {
        let ghost s = cur.chunks@;
        let ghost e_start = strings_of(self.errors@);
        let ghost (pre, secs) = sectioned_spec(s, cur.pos as int, ctx_of(*cur), cur.doctype_book);
        let blocks = match self.parse_blocks(cur) {
            Err(d) => {
                proof {
                    lemma_first_err(Seq::empty(), pre.errs, secs.errs);
                    assert(Seq::<(Seq<char>, u32, u32)>::empty() + pre.errs + secs.errs =~= pre.errs + secs.errs);
                }
                return Err(d);
            },
            Ok(b) => b,
        };
        let ghost e_mid = strings_of(self.errors@);
        proof {
            assert(Seq::<(Seq<char>, u32, u32)>::empty() + pre.errs =~= pre.errs);
            assert(e_start + messages(Seq::<(Seq<char>, u32, u32)>::empty()) =~= e_start);
        }
        let sections = match self.parse_sections(cur) {
            Err(d) => {
                proof {
                    lemma_first_err(pre.errs, secs.errs, Seq::empty());
                    assert(pre.errs + secs.errs + Seq::<(Seq<char>, u32, u32)>::empty() =~= pre.errs + secs.errs);
                }
                return Err(d);
            },
            Ok(v) => v,
        };
        proof {
            lemma_messages_add(pre.errs, secs.errs);
            if !self.strict {
                assert(e_start + messages(pre.errs) + messages(secs.errs) =~= e_start + (messages(pre.errs) + messages(
                    secs.errs,
                )));
            }
        }
        let preamble = if blocks.len() == 0 {
            None
        } else {
            Some(blocks)
        };
        Ok(Sectioned { preamble, sections })
    }
}

impl Parser {
    /// A part of a book, if one starts at the current chunk: a level 0
    /// heading that names no special section, then a preamble (its intro)
    /// and sections; a part without sections is reported.
    pub fn parse_book_part(&mut self, cur: &mut DocCursor) -> (r: Result<Option<Part>, Diagnostic>)
        requires
            old(cur).pos <= old(cur).chunks@.len(),
        ensures
            ({
                let o = part_spec(old(cur).chunks@, old(cur).pos as int, ctx_of(*old(cur)), old(cur).doctype_book);
                &&& outcome(old(self).strict, part_errs(o), r, strings_of(old(self).errors@), strings_of(final(self).errors@))
                &&& r matches Ok(None) ==> o is None && final(cur).pos == old(cur).pos
                &&& r matches Ok(Some(p)) ==> o matches Some(x) && part_view(p) == x.0 && final(cur).pos == x.1
                    && old(cur).pos < final(cur).pos
                &&& r is Ok ==> ctx_of(*final(cur)) == ctx_of(*old(cur))
            }),
            cursor_kept(*old(cur), *final(cur)),
            crate::attr_entry::only_errors_changed(*old(self), *final(self)),
    {
        if cur.pos >= cur.chunks.len() {
            return Ok(None);
        }
        let c = cur.chunks[cur.pos];
        let h = match c {
            Chunk::Heading(h) => h,
            _ => {
                return Ok(None);
            },
        };
        if h.level != 0 || h.special.is_some() {
            return Ok(None);
        }
        cur.pos = cur.pos + 1;
        let ghost e_start = strings_of(self.errors@);
        let ghost (pre, secs) = sectioned_spec(cur.chunks@, cur.pos as int, ctx_of(*cur), cur.doctype_book);
        let ghost e: Seq<(Seq<char>, u32, u32)> = if secs.events.len() == 0 {
            seq![(empty_part_message(), h.line_start, h.line_end)]
        } else {
            Seq::empty()
        };
        let sd = match self.parse_sectioned(cur) {
            Err(d) => {
                proof {
                    lemma_first_err(Seq::empty(), pre.errs + secs.errs, e);
                    assert(Seq::<(Seq<char>, u32, u32)>::empty() + (pre.errs + secs.errs) + e =~= pre.errs + secs.errs
                        + e);
                }
                return Err(d);
            },
            Ok(v) => v,
        };
        let ghost e_mid = strings_of(self.errors@);
        if sd.sections.len() == 0 {
            match self.report(
                crate::text::string_of(
                    crate::text::chars_of("Invalid empty book part, must have at least one section").as_slice(),
                ),
                h.line_start,
                h.line_end,
            ) {
                Err(d) => {
                    proof {
                        assert(pre.errs + secs.errs + e =~= e);
                    }
                    return Err(d);
                },
                Ok(()) => {},
            }
            proof {
                if !self.strict {
                    assert(messages(e) =~= seq![empty_part_message()]);
                    assert(strings_of(self.errors@) =~= e_mid + messages(e));
                }
            }
        } else {
            proof {
                assert(messages(e) =~= Seq::<Seq<char>>::empty());
                assert(strings_of(self.errors@) =~= e_mid + messages(e));
            }
        }
        proof {
            lemma_messages_add(pre.errs + secs.errs, e);
            if !self.strict {
                if secs.events.len() == 0 {
                    assert(messages(e) =~= seq![empty_part_message()]);
                } else {
                    assert(messages(e) =~= Seq::<Seq<char>>::empty());
                }
                assert(e_start + messages(pre.errs + secs.errs) + messages(e) =~= e_start + (messages(
                    pre.errs + secs.errs,
                ) + messages(e)));
            } else {
                assert(pre.errs + secs.errs + e =~= e);
            }
        }
        let intro = match sd.preamble {
            Some(p) => Some(unwrap_open_block(p)),
            None => None,
        };
        Ok(Some(Part { heading: h, intro, sections: sd.sections }))
    }

    fn parse_book_parts(&mut self, cur: &mut DocCursor) -> (r: Result<Vec<Part>, Diagnostic>)
        requires
            old(cur).pos <= old(cur).chunks@.len(),
        ensures
            ({
                let b = parts_spec(old(cur).chunks@, old(cur).pos as int, ctx_of(*old(cur)), old(cur).doctype_book);
                &&& outcome(old(self).strict, b.2, r, strings_of(old(self).errors@), strings_of(final(self).errors@))
                &&& r matches Ok(v) ==> parts_view(v@) == b.0 && final(cur).pos == b.1 && ctx_of(*final(cur)) == ctx_of(*old(cur))
            }),
            cursor_kept(*old(cur), *final(cur)),
            crate::attr_entry::only_errors_changed(*old(self), *final(self)),
    {
        let ghost s = cur.chunks@;
        let ghost p0 = cur.pos as int;
        let ghost lvl = ctx_of(*cur);
        let ghost book = cur.doctype_book;
        let ghost total = parts_spec(s, p0, lvl, book);
        let ghost e_start = strings_of(self.errors@);
        let ghost self0 = *self;
        let mut out: Vec<Part> = Vec::new();
        let ghost mut acc: Seq<(Seq<char>, u32, u32)> = Seq::empty();
        assert(total.0 =~= parts_view(out@) + total.0);
        assert(total.2 =~= acc + total.2);
        assert(messages(acc) =~= Seq::<Seq<char>>::empty());
        assert(e_start =~= e_start + messages(acc));
        loop
            invariant
                cur.chunks@ == s,
                s == old(cur).chunks@,
                p0 == old(cur).pos,
                cur.doctype_book == book,
                book == old(cur).doctype_book,
                p0 <= cur.pos <= s.len(),
                ctx_of(*cur) == lvl,
                lvl == ctx_of(*old(cur)),
                total == parts_spec(s, p0, lvl, book),
                self0 == *old(self),
                e_start == strings_of(old(self).errors@),
                crate::attr_entry::only_errors_changed(self0, *self),
                total.0 == parts_view(out@) + parts_spec(s, cur.pos as int, lvl, book).0,
                total.2 == acc + parts_spec(s, cur.pos as int, lvl, book).2,
                total.1 == parts_spec(s, cur.pos as int, lvl, book).1,
                recorded(self.strict, e_start, acc, strings_of(self.errors@)),
            ensures
                total.0 == parts_view(out@),
                total.2 == acc,
                total.1 == cur.pos,
            decreases s.len() - cur.pos,
        {
            let ghost pos_before = cur.pos as int;
            let ghost e_before = strings_of(self.errors@);
            match self.parse_book_part(cur) {
                Err(d) => {
                    proof {
                        let b = part_spec(s, pos_before, lvl, book)->Some_0;
                        let rest = parts_spec(s, pos_before, lvl, book);
                        assert(rest.2[0] == b.2[0]);
                        lemma_first_err(acc, rest.2, Seq::empty());
                        assert(total.2 =~= acc + rest.2);
                    }
                    return Err(d);
                },
                Ok(None) => {
                    proof {
                        let rest = parts_spec(s, cur.pos as int, lvl, book);
                        assert(parts_view(out@) + rest.0 =~= parts_view(out@));
                        assert(acc + rest.2 =~= acc);
                    }
                    break ;
                },
                Ok(Some(p)) => {
                    let ghost b = part_spec(s, pos_before, lvl, book)->Some_0;
                    let ghost rest = parts_spec(s, cur.pos as int, lvl, book);
                    let ghost out0 = out@;
                    out.push(p);
                    proof {
                        assert(parts_view(out@) =~= parts_view(out0) + seq![b.0]);
                        assert(parts_view(out0) + seq![b.0] + rest.0 =~= parts_view(out0) + (seq![b.0] + rest.0));
                        assert(acc + b.2 + rest.2 =~= acc + (b.2 + rest.2));
                        lemma_recorded_step(self.strict, e_start, acc, b.2, e_before, strings_of(self.errors@));
                        acc = acc + b.2;
                    }
                },
            }
        }
        Ok(out)
    }
}

/// `blocks` joined to the preamble `pre` read after them.
fn lead_preamble(blocks: Vec<Event>, pre: Option<Vec<Event>>) -> (r: Option<Vec<Event>>)
    ensures
        opt_events(r) == preamble_of(
            blocks@ + match opt_events(pre) {
                Some(p) => p,
                None => Seq::empty(),
            },
        ),
{
    let mut all = blocks;
    match pre {
        Some(p) => {
            append_events(&mut all, &p);
        },
        None => {
            assert(all@ + Seq::<Event>::empty() =~= all@);
        },
    }
    if all.len() == 0 {
        None
    } else {
        Some(all)
    }
}

impl Parser {
    /// The body of a book (none for other documents): special sections
    /// first, then either parts with the special sections after them, or
    /// sections, or blocks; blocks before parts or sections become their
    /// preamble.
    pub fn parse_book(&mut self, cur: &mut DocCursor) -> (r: Result<Option<DocContent>, Diagnostic>)
        requires
            old(cur).pos <= old(cur).chunks@.len(),
        ensures
            ({
                let o = book_spec(old(cur).chunks@, old(cur).pos as int, ctx_of(*old(cur)), old(cur).doctype_book);
                &&& outcome(old(self).strict, book_errs(o), r, strings_of(old(self).errors@), strings_of(final(self).errors@))
                &&& r matches Ok(None) ==> o is None
                &&& r matches Ok(Some(c)) ==> o matches Some(x) && content_view(c) == x.0 && final(cur).pos == x.1
                &&& r is Ok ==> ctx_of(*final(cur)) == ctx_of(*old(cur))
            }),
            cursor_kept(*old(cur), *final(cur)),
            crate::attr_entry::only_errors_changed(*old(self), *final(self)),
        decreases old(cur).chunks@.len() - old(cur).pos,
    {
        if !cur.doctype_book {
            return Ok(None);
        }
        let ghost s = cur.chunks@;
        let ghost p0 = cur.pos as int;
        let ghost lvl = ctx_of(*cur);
        let ghost e_start = strings_of(self.errors@);
        let ghost op = specials_spec(s, p0, lvl);
        let ghost x = book_spec(s, p0, lvl, true)->Some_0;
        proof {
            lemma_book_prefix(s, p0, lvl);
        }
        let ghost tail = x.2.skip(op.errs.len() as int);
        let start = cur.pos;
        let opening = match self.parse_special_sects(cur) {
            Err(d) => {
                proof {
                    lemma_first_err(Seq::empty(), op.errs, tail);
                    assert(Seq::<(Seq<char>, u32, u32)>::empty() + op.errs + tail =~= x.2);
                }
                return Err(d);
            },
            Ok(v) => v,
        };
        assert(recorded(self.strict, e_start, op.errs, strings_of(self.errors@)));
        if cur.pos >= cur.chunks.len() && opening.len() > 0 {
            proof {
                assert(op.errs + Seq::<(Seq<char>, u32, u32)>::empty() =~= op.errs);
                lemma_recorded_step(self.strict, e_start, op.errs, Seq::empty(), strings_of(self.errors@), strings_of(self.errors@));
            }
            return Ok(Some(DocContent::Sections(Sectioned { preamble: None, sections: opening })));
        }
        let ghost e_a = strings_of(self.errors@);
        let first_part = match self.parse_book_part(cur) {
            Err(d) => {
                proof {
                    let p1 = part_spec(s, op.pos, lvl, true)->Some_0;
                    let more = parts_spec(s, p1.1, lvl, true);
                    let cl = specials_spec(s, more.1, lvl);
                    lemma_first_err(op.errs, p1.2, more.2 + cl.errs);
                    assert(op.errs + (p1.2 + (more.2 + cl.errs)) =~= x.2);
                }
                return Err(d);
            },
            Ok(v) => v,
        };
        if let Some(p1) = first_part {
            let ghost p1s = part_spec(s, op.pos, lvl, true)->Some_0;
            let ghost more = parts_spec(s, p1s.1, lvl, true);
            let ghost cl = specials_spec(s, more.1, lvl);
            proof {
                lemma_recorded_step(self.strict, e_start, op.errs, p1s.2, e_a, strings_of(self.errors@));
            }
            let ghost e_b = strings_of(self.errors@);
            let mut parts = match self.parse_book_parts(cur) {
                Err(d) => {
                    proof {
                        lemma_first_err(op.errs + p1s.2, more.2, cl.errs);
                        assert(op.errs + p1s.2 + more.2 + cl.errs =~= x.2);
                    }
                    return Err(d);
                },
                Ok(v) => v,
            };
            proof {
                lemma_recorded_step(self.strict, e_start, op.errs + p1s.2, more.2, e_b, strings_of(self.errors@));
            }
            let ghost e_c = strings_of(self.errors@);
            let ghost rest_parts = parts@;
            parts.insert(0, p1);
            proof {
                assert(parts_view(parts@) =~= seq![p1s.0] + more.0);
            }
            let closing = match self.parse_special_sects(cur) {
                Err(d) => {
                    proof {
                        lemma_first_err(op.errs + p1s.2 + more.2, cl.errs, Seq::empty());
                        assert(op.errs + p1s.2 + more.2 + cl.errs + Seq::<(Seq<char>, u32, u32)>::empty() =~= x.2);
                    }
                    return Err(d);
                },
                Ok(v) => v,
            };
            proof {
                lemma_recorded_step(self.strict, e_start, op.errs + p1s.2 + more.2, cl.errs, e_c, strings_of(self.errors@));
            }
            return Ok(
                Some(
                    DocContent::Parts(
                        MultiPartBook {
                            preamble: None,
                            opening_special_sects: opening,
                            parts,
                            closing_special_sects: closing,
                        },
                    ),
                ),
            );
        }
        if cur.pos < cur.chunks.len() {
            if let Chunk::Heading(_) = cur.chunks[cur.pos] {
                let ghost pair = sectioned_spec(s, op.pos, lvl, true);
                let sd = match self.parse_sectioned(cur) {
                    Err(d) => {
                        proof {
                            lemma_first_err(op.errs, pair.0.errs + pair.1.errs, Seq::empty());
                            assert(op.errs + pair.0.errs + pair.1.errs =~= x.2);
                            assert(op.errs + (pair.0.errs + pair.1.errs) + Seq::<(Seq<char>, u32, u32)>::empty()
                                =~= x.2);
                        }
                        return Err(d);
                    },
                    Ok(v) => v,
                };
                proof {
                    lemma_recorded_step(
                        self.strict,
                        e_start,
                        op.errs,
                        pair.0.errs + pair.1.errs,
                        e_a,
                        strings_of(self.errors@),
                    );
                    assert(op.errs + (pair.0.errs + pair.1.errs) =~= x.2);
                }
                let mut sections = opening;
                append_events(&mut sections, &sd.sections);
                return Ok(Some(DocContent::Sections(Sectioned { preamble: sd.preamble, sections })));
            }
        }
        let ghost bl = blocks_spec(s, op.pos, lvl);
        let blocks = match self.parse_blocks(cur) {
            Err(d) => {
                proof {
                    if bl.pos >= s.len() || bl.pos <= p0 {
                        lemma_first_err(op.errs, bl.errs, Seq::empty());
                        assert(op.errs + bl.errs + Seq::<(Seq<char>, u32, u32)>::empty() =~= x.2);
                    } else {
                        let r = book_spec(s, bl.pos, lvl, true);
                        lemma_first_err(op.errs, bl.errs, book_errs(r));
                        assert(op.errs + bl.errs + book_errs(r) =~= x.2);
                    }
                }
                return Err(d);
            },
            Ok(v) => v,
        };
        proof {
            lemma_recorded_step(self.strict, e_start, op.errs, bl.errs, e_a, strings_of(self.errors@));
        }
        if cur.pos >= cur.chunks.len() || cur.pos <= start {
            return Ok(Some(DocContent::Blocks(blocks)));
        }
        let ghost e_d = strings_of(self.errors@);
        let ghost rs = book_spec(s, bl.pos, lvl, true);
        match self.parse_book(cur) {
            Err(d) => {
                proof {
                    lemma_first_err(op.errs + bl.errs, book_errs(rs), Seq::empty());
                    assert(op.errs + bl.errs + book_errs(rs) + Seq::<(Seq<char>, u32, u32)>::empty() =~= x.2);
                }
                Err(d)
            },
            Ok(None) => {
                proof {
                    assert(op.errs + bl.errs + Seq::<(Seq<char>, u32, u32)>::empty() =~= op.errs + bl.errs);
                }
                Ok(Some(DocContent::Blocks(blocks)))
            },
            Ok(Some(c)) => {
                proof {
                    lemma_recorded_step(self.strict, e_start, op.errs + bl.errs, book_errs(rs), e_d, strings_of(self.errors@));
                }
                match c {
                    DocContent::Sections(sd) => {
                        let preamble = lead_preamble(blocks, sd.preamble);
                        Ok(Some(DocContent::Sections(Sectioned { preamble, sections: sd.sections })))
                    },
                    DocContent::Parts(b) => {
                        let preamble = lead_preamble(blocks, b.preamble);
                        Ok(
                            Some(
                                DocContent::Parts(
                                    MultiPartBook {
                                        preamble,
                                        opening_special_sects: b.opening_special_sects,
                                        parts: b.parts,
                                        closing_special_sects: b.closing_special_sects,
                                    },
                                ),
                            ),
                        )
                    },
                    DocContent::Blocks(b) => {
                        let mut all = blocks;
                        append_events(&mut all, &b);
                        Ok(Some(DocContent::Blocks(all)))
                    },
                }
            },
        }
    }
}

} // verus!
