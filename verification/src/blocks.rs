//! Block and section metadata: the context a paragraph takes (its block
//! style, or an inline admonition label such as `TIP: `), the level a
//! section starts at, special sections, anchors, and a few token-level
//! helpers of inline parsing.
use vstd::prelude::*;

use crate::line::{seq_at, tokens_view, ContiguousLines, Line, TokenSpec};
use crate::parser::Parser;
use crate::table_spec::TokenView;
use crate::token::{SourceLocation, SourceString, Token, TokenKind};

verus! {

/// The context of a block.
#[derive(Debug, Clone, Copy, PartialEq, Eq, Structural)]
pub enum BlockContext {
    AdmonitionCaution,
    AdmonitionImportant,
    AdmonitionNote,
    AdmonitionTip,
    AdmonitionWarning,
    Comment,
    Example,
    Listing,
    Literal,
    Open,
    Paragraph,
    Passthrough,
    QuotedParagraph,
    Sidebar,
    Table,
    UnorderedList,
    Verse,
}

/// The admonition an inline label names: `TIP`, `NOTE`, `IMPORTANT`,
/// `WARNING` or `CAUTION`.
pub open spec fn admonition_of(s: Seq<char>) -> Option<BlockContext> {
    if s == "TIP"@ {
        Some(BlockContext::AdmonitionTip)
    } else if s == "NOTE"@ {
        Some(BlockContext::AdmonitionNote)
    } else if s == "IMPORTANT"@ {
        Some(BlockContext::AdmonitionImportant)
    } else if s == "WARNING"@ {
        Some(BlockContext::AdmonitionWarning)
    } else if s == "CAUTION"@ {
        Some(BlockContext::AdmonitionCaution)
    } else {
        None
    }
}

impl BlockContext {
    /// The admonition an inline label names.
    pub fn derive_admonition(s: &str) -> (r: Option<BlockContext>)
        ensures
            r == admonition_of(s@),
    {
        if crate::text::str_eq(s, "TIP") {
            Some(BlockContext::AdmonitionTip)
        } else if crate::text::str_eq(s, "NOTE") {
            Some(BlockContext::AdmonitionNote)
        } else if crate::text::str_eq(s, "IMPORTANT") {
            Some(BlockContext::AdmonitionImportant)
        } else if crate::text::str_eq(s, "WARNING") {
            Some(BlockContext::AdmonitionWarning)
        } else if crate::text::str_eq(s, "CAUTION") {
            Some(BlockContext::AdmonitionCaution)
        } else {
            None
        }
    }
}

/// What precedes a block: its title, the block style its attribute list
/// names (if any), and where it starts.
#[derive(Debug)]
pub struct BlockMetadata {
    pub title: Option<SourceString>,
    pub block_style: Option<BlockContext>,
    pub start: usize,
}

pub open spec fn lines_view(ls: Seq<Line>) -> Seq<Seq<TokenView>> {
    ls.map_values(|l: Line| l@)
}

/// Whether a line opens with a word, a colon and a space.
pub open spec fn starts_label(l: Seq<TokenView>) -> bool {
    seq_at(
        l,
        seq![TokenSpec::Kind(TokenKind::Word), TokenSpec::Kind(TokenKind::Colon), TokenSpec::Kind(TokenKind::Whitespace)],
        0,
    )
}

/// The admonition label a paragraph's first line opens with, if any.
pub open spec fn inline_admonition(ls: Seq<Seq<TokenView>>) -> Option<BlockContext> {
    if ls.len() > 0 && starts_label(ls[0]) {
        admonition_of(ls[0][0].2)
    } else {
        None
    }
}

/// The lines once an admonition label is taken off: the first line loses
/// its first three tokens, and goes if nothing is left of it.
pub open spec fn without_label(ls: Seq<Seq<TokenView>>) -> Seq<Seq<TokenView>> {
    if ls[0].len() > 3 {
        ls.update(0, ls[0].skip(3))
    } else {
        ls.drop_first()
    }
}

impl BlockMetadata {
    /// The block style, or `default`.
    pub fn block_style_or(&self, default: BlockContext) -> (r: BlockContext)
        ensures
            r == match self.block_style {
                Some(s) => s,
                None => default,
            },
    {
        match self.block_style {
            Some(s) => s,
            None => default,
        }
    }

    /// The context of a paragraph: its block style; else an admonition
    /// label it opens with (taken off the lines); else a plain paragraph.
    pub fn paragraph_context(&self, lines: &mut ContiguousLines) -> (r: BlockContext)
        ensures
            match self.block_style {
                Some(s) => r == s && final(lines).lines@ == old(lines).lines@,
                None => match inline_admonition(lines_view(old(lines).lines@)) {
                    Some(c) => r == c && lines_view(final(lines).lines@) == without_label(
                        lines_view(old(lines).lines@),
                    ),
                    None => r == BlockContext::Paragraph && final(lines).lines@ == old(lines).lines@,
                },
            },
    {
        if let Some(s) = self.block_style {
            return s;
        }
        let ghost ls = lines_view(lines.lines@);
        if lines.lines.len() == 0 {
            return BlockContext::Paragraph;
        }
        let pat = [
            TokenSpec::Kind(TokenKind::Word),
            TokenSpec::Kind(TokenKind::Colon),
            TokenSpec::Kind(TokenKind::Whitespace),
        ];
        assert(pat@ =~= seq![
            TokenSpec::Kind(TokenKind::Word),
            TokenSpec::Kind(TokenKind::Colon),
            TokenSpec::Kind(TokenKind::Whitespace),
        ]);
        assert(ls[0] == lines.lines@[0]@);
        if !lines.lines[0].starts_with_seq(pat.as_slice()) {
            return BlockContext::Paragraph;
        }
        let context = match lines.lines[0].current_token() {
            Some(t) => BlockContext::derive_admonition(t.lexeme.as_str()),
            None => None,
        };
        match context {
            Some(c) => {
                let ghost before = lines.lines@;
                let mut line = lines.lines.remove(0);
                assert(line@ == ls[0]);
                assert(lines_view(lines.lines@) =~= ls.drop_first());
                line.discard(3);
                assert(line@ == ls[0].skip(3));
                assert(line@.len() == line.tokens@.len());
                if line.tokens.len() > 0 {
                    let ghost rest = lines.lines@;
                    let ghost lv = line@;
                    lines.lines.insert(0, line);
                    assert(lines.lines@[0]@ == lv);
                    assert forall|i: int| 0 <= i < lines.lines@.len() implies lines_view(lines.lines@)[i] == without_label(ls)[i] by {
                        if i > 0 {
                            assert(lines.lines@[i] == rest[i - 1]);
                        }
                    }
                    assert(lines_view(lines.lines@) =~= without_label(ls));
                } else {
                    assert(lines_view(lines.lines@) =~= without_label(ls));
                }
                c
            },
            None => BlockContext::Paragraph,
        }
    }
}

/// Sections with a role of their own in books and articles.
#[derive(Debug, Clone, Copy, PartialEq, Eq, Structural)]
pub enum SpecialSection {
    Abstract,
    Acknowledgments,
    Appendix,
    Bibliography,
    Colophon,
    Dedication,
    Glossary,
    Index,
    Preface,
}

/// A section read ahead: the special section its attributes name, its
/// lines, and its levels as meant and as written.
#[derive(Debug)]
pub struct PeekedSection {
    pub special_sect: Option<SpecialSection>,
    pub lines: ContiguousLines,
    pub semantic_level: u8,
    pub authored_level: u8,
}

impl PeekedSection {
    pub fn is_special_sect(&self) -> (r: bool)
        ensures
            r == self.special_sect is Some,
    {
        self.special_sect.is_some()
    }

    pub fn special_sect(&self) -> (r: Option<SpecialSection>)
        ensures
            r == self.special_sect,
    {
        self.special_sect
    }
}

/// An anchor, `[[id,reftext]]`: its id, the tokens of its reference text,
/// and where it stands.
#[derive(Debug)]
pub struct AnchorSrc {
    pub id: SourceString,
    pub reftext: Option<Vec<Token>>,
    pub loc: SourceLocation,
}

/// What the search for a section's start reads of a line: whether it is
/// metadata to pass over (a block attribute list, a block title or a
/// comment), the heading level its `=` marker gives (before any offset),
/// and the level offset of the include it came from.
#[derive(Debug, Clone, Copy, PartialEq, Eq, Structural)]
pub struct LineShape {
    pub skippable: bool,
    pub heading_level: Option<u8>,
    pub include_leveloffset: i8,
}

/// The level a heading line gets under both offsets.
pub open spec fn shape_level(leveloffset: i8, l: LineShape) -> Option<u8> {
    match l.heading_level {
        Some(h) => Some(
            crate::parser::adjusted_level(
                l.include_leveloffset as int,
                crate::parser::adjusted_level(leveloffset as int, h as int),
            ) as u8,
        ),
        None => None,
    }
}

/// Whether the offsets keep a heading within `u8` arithmetic.
pub open spec fn shape_fits(leveloffset: i8, l: LineShape) -> bool {
    l.heading_level matches Some(h) ==> h <= 127 && h + leveloffset <= 127 && crate::parser::adjusted_level(
        leveloffset as int,
        h as int,
    ) + l.include_leveloffset <= 127
}

/// The level a section starts at: the first line that is not metadata
/// must be a heading, and the block must not be `discrete` (or `float`).
pub open spec fn start_level(leveloffset: i8, ls: Seq<LineShape>, discrete: bool) -> Option<u8>
    decreases ls.len(),
{
    if ls.len() == 0 {
        None
    } else if ls[0].skippable {
        start_level(leveloffset, ls.drop_first(), discrete)
    } else if ls[0].heading_level is Some {
        if discrete {
            None
        } else {
            shape_level(leveloffset, ls[0])
        }
    } else {
        None
    }
}

impl Parser {
    /// The level of the section the lines start, if they start one.
    pub fn section_start_level(&self, lines: &[LineShape], discrete: bool) -> (r: Option<u8>)
        requires
            forall|i: int| 0 <= i < lines@.len() ==> shape_fits(self.leveloffset, #[trigger] lines@[i]),
        ensures
            r == start_level(self.leveloffset, lines@, discrete),
    {
        let mut i: usize = 0;
        assert(lines@.skip(0) =~= lines@);
        while i < lines.len()
            invariant
                0 <= i <= lines@.len(),
                start_level(self.leveloffset, lines@.skip(i as int), discrete) == start_level(
                    self.leveloffset,
                    lines@,
                    discrete,
                ),
                forall|j: int| 0 <= j < lines@.len() ==> shape_fits(self.leveloffset, #[trigger] lines@[j]),
            decreases lines@.len() - i,
        {
            let line = lines[i];
            assert(lines@.skip(i as int)[0] == line);
            assert(lines@.skip(i as int).drop_first() =~= lines@.skip(i + 1));
            if line.skippable {
                i = i + 1;
                continue;
            }
            assert(shape_fits(self.leveloffset, lines@[i as int]));
            match self.line_heading_level(line.heading_level, line.include_leveloffset) {
                Some(level) => {
                    return if discrete {
                        None
                    } else {
                        Some(level)
                    };
                },
                None => {
                    return None;
                },
            }
        }
        assert(lines@.skip(i as int) =~= Seq::<LineShape>::empty());
        None
    }
}

/// Moves a location's end past the last of the nodes parsed (or keeps it,
/// without nodes) and `adding` more bytes.
pub fn extend(loc: &mut SourceLocation, node_locs: &[SourceLocation], adding: usize)
    requires
        (if node_locs@.len() > 0 {
            node_locs@.last().end
        } else {
            old(loc).end
        }) + adding <= u32::MAX,
    ensures
        final(loc).end == (if node_locs@.len() > 0 {
            node_locs@.last().end
        } else {
            old(loc).end
        }) + adding,
        final(loc).start == old(loc).start,
        final(loc).include_depth == old(loc).include_depth,
{
    let base = if node_locs.len() > 0 {
        node_locs[node_locs.len() - 1].end
    } else {
        loc.end
    };
    loc.end = base + adding as u32;
}

/// Whether the current line or any following one holds tokens fitting
/// `specs` in a row.
pub fn contains_seq(specs: &[TokenSpec], line: &Line, lines: &ContiguousLines) -> (r: bool)
    ensures
        r == ((exists|o: int| 0 <= o <= line@.len() && #[trigger] seq_at(line@, specs@, o)) || (exists|k: int, o: int|
            0 <= k < lines.lines@.len() && 0 <= o <= lines.lines@[k]@.len() && #[trigger] seq_at(
                lines.lines@[k]@,
                specs@,
                o,
            ))),
{
    line.contains_seq(specs) || lines.contains_seq(specs)
}

/// Whether the current line or any following one holds a token of `kind`
/// that is `len` bytes long.
pub fn contains_len(kind: TokenKind, len: usize, line: &Line, lines: &ContiguousLines) -> (r: bool)
    ensures
        r == ((exists|i: int| 0 <= i < line@.len() && crate::line::fits(TokenSpec::Len(len, kind), (#[trigger] line@[i]).0, line@[i].2)) || (exists|k: int, i: int|
            0 <= k < lines.lines@.len() && 0 <= i < lines.lines@[k]@.len() && crate::line::fits(
                TokenSpec::Len(len, kind),
                (#[trigger] lines.lines@[k]@[i]).0,
                lines.lines@[k]@[i].2,
            ))),
{
    line.contains_len(kind, len) || lines.contains_len(kind, len)
}

} // verus!
