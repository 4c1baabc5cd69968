//! The parser state that the verified directive, header and section logic
//! reads and updates, held as plain values.
use vstd::prelude::*;
use vstd::string::StringExecFns;

use crate::attrs::{AttrValue, DocAttrs};

verus! {

/// What the reader does after a directive line.
#[derive(Debug, PartialEq, Eq)]
pub enum DirectiveAction {
    /// Treat the line as ordinary content.
    Passthrough,
    /// Drop the line and read the next one.
    ReadNextLine,
    /// Skip lines up to the matching `endif::[]`.
    SkipLinesUntilEndIf,
    /// Read this text in place of the directive line.
    SubstituteLine(String),
}

/// Where the table of contents goes.
#[derive(Debug, PartialEq, Eq, Structural, Clone, Copy)]
pub enum TocPosition {
    Left,
    Right,
    Preamble,
    Macro,
    Auto,
}

/// One entry of the table of contents.
#[derive(Debug)]
pub struct TocNode {
    pub level: u8,
    pub title: String,
    pub id: Option<String>,
    pub special_sect: Option<crate::blocks::SpecialSection>,
    pub children: Vec<TocNode>,
}

/// The table of contents being built.
#[derive(Debug)]
pub struct TableOfContents {
    pub title: String,
    pub nodes: Vec<TocNode>,
    pub position: TocPosition,
}

/// Parser state: the document's attributes, the heading level offset, the
/// ids in use, the open conditional directives, the include depth limit,
/// the table of contents and the errors reported so far.
#[derive(Debug)]
pub struct Parser {
    pub attrs: DocAttrs,
    pub leveloffset: i8,
    pub anchor_ids: Vec<String>,
    pub ifdef_stack: Vec<String>,
    pub max_include_depth: u16,
    pub toc: Option<TableOfContents>,
    pub errors: Vec<String>,
    pub authors: Vec<crate::author::Author>,
    pub included_files: Vec<String>,
    pub attr_defs: Vec<crate::attr_def::AttrDef>,
    /// Whether the first error ends parsing (returned as a `Diagnostic`)
    /// rather than being recorded in `errors`.
    pub strict: bool,
}

/// An error at a place in the source: its message and the byte range it
/// points at.
#[derive(Debug, Clone, PartialEq, Eq)]
pub struct Diagnostic {
    pub message: String,
    pub start: u32,
    pub end: u32,
}

pub open spec fn diag_view(d: Diagnostic) -> (Seq<char>, u32, u32) {
    (d.message@, d.start, d.end)
}

/// A heading level shifted by a level offset, clamped at 0.
pub open spec fn adjusted_level(leveloffset: int, heading_level: int) -> int {
    if leveloffset == 0 {
        heading_level
    } else if heading_level + leveloffset < 0 {
        0
    } else {
        heading_level + leveloffset
    }
}

/// Shifts a heading level by a level offset, clamping at level 0.
pub fn adjusted_leveloffset(leveloffset: i8, heading_level: u8) -> (r: u8)
    requires
        heading_level <= 127,
        heading_level + leveloffset <= 127,
    ensures
        r == adjusted_level(leveloffset as int, heading_level as int),
{
    if leveloffset == 0 {
        return heading_level;
    }
    let new_level = (heading_level as i8) + leveloffset;
    if new_level < 0 {
        0
    } else {
        new_level as u8
    }
}

/// A signed decimal in range for `i8`, or `default`.
pub open spec fn i8_or(s: Seq<char>, default: int) -> int {
    match crate::text::signed_decimal(s) {
        Some(v) => if -128 <= v <= 127 {
            v
        } else {
            default
        },
        None => default,
    }
}

/// The level offset after applying a `leveloffset` attribute value: `+n`
/// and `-n` are relative, `n` absolute (unparseable text leaves it or adds
/// nothing), unsetting resets it to 0.
pub open spec fn leveloffset_after(lo: int, v: crate::attrs::AttrValueV) -> int {
    match v {
        crate::attrs::AttrValueV::String(s) => if s.len() > 0 && s[0] == '+' {
            lo + i8_or(s.drop_first(), 0)
        } else if s.len() > 0 && s[0] == '-' {
            lo - i8_or(s.drop_first(), 0)
        } else {
            i8_or(s, lo)
        },
        crate::attrs::AttrValueV::Bool(false) => 0,
        crate::attrs::AttrValueV::Bool(true) => lo,
    }
}

/// The relative depth limit when an include at `include_depth` would go past
/// the limit in force (the lexer's relative limit plus its stack depth, at
/// most the parser's own), `None` when it may proceed.
pub open spec fn depth_exceeded(max_include_depth: u16, lexer_max: Option<(u16, u16)>, include_depth: u16) -> Option<
    u16,
> {
    let (rel, stack) = match lexer_max {
        Some(m) => m,
        None => (max_include_depth, 0u16),
    };
    let abs = if rel + stack < max_include_depth {
        rel + stack
    } else {
        max_include_depth as int
    };
    if include_depth + 1 > abs {
        Some(rel)
    } else {
        None
    }
}

/// Whether the attribute named by `attr` counts as defined.
pub open spec fn attr_defined(attrs: Seq<(Seq<char>, crate::attrs::AttrValueV)>, attr: Seq<char>) -> bool {
    crate::attrs::is_set_value(crate::attrs::lookup(attrs, attr))
}

/// The outcome of `ifdef::attrs[]` (`defined`) or `ifndef::attrs[]`: with
/// `,` any listed attribute must be defined; otherwise (`+`) `ifdef` wants
/// all of them, while `ifndef` looks at the last one listed.
pub open spec fn ifdef_outcome(
    attrs: Seq<(Seq<char>, crate::attrs::AttrValueV)>,
    defined: bool,
    s: Seq<char>,
) -> bool {
    let is_any = s.contains(',');
    let parts = crate::text::split_chars(s, ',', '+');
    let result = if is_any {
        exists|i: int| 0 <= i < parts.len() && attr_defined(attrs, #[trigger] parts[i])
    } else if defined {
        forall|i: int| 0 <= i < parts.len() ==> attr_defined(attrs, #[trigger] parts[i])
    } else {
        attr_defined(attrs, parts.last())
    };
    if defined {
        result
    } else {
        !result
    }
}

impl Parser {
    /// A parser with the given attributes and no other state.
    pub fn new(attrs: DocAttrs) -> (p: Parser)
        ensures
            p.attrs@ == attrs@,
            p.leveloffset == 0,
            p.anchor_ids@.len() == 0,
            p.ifdef_stack@.len() == 0,
            p.max_include_depth == 64,
            p.toc is None,
            p.errors@.len() == 0,
            p.authors@.len() == 0,
            p.included_files@.len() == 0,
            p.attr_defs@.len() == 0,
            !p.strict,
    {
        Parser {
            attrs,
            leveloffset: 0,
            anchor_ids: Vec::new(),
            ifdef_stack: Vec::new(),
            max_include_depth: 64,
            toc: None,
            errors: Vec::new(),
            authors: Vec::new(),
            included_files: Vec::new(),
            attr_defs: Vec::new(),
            strict: false,
        }
    }

    /// Applies a `leveloffset` attribute value to a level offset.
    pub fn adjust_leveloffset(leveloffset: &mut i8, value: &AttrValue)
        requires
            -128 <= leveloffset_after(*old(leveloffset) as int, value@) <= 127,
        ensures
            *final(leveloffset) as int == leveloffset_after(*old(leveloffset) as int, value@),
    {
        match value {
            AttrValue::String(s) => {
                let cs = crate::text::chars_of(s.as_str());
                if cs.len() > 0 && cs[0] == '+' {
                    let rest = &cs.as_slice()[1..cs.len()];
                    assert(rest@ =~= cs@.drop_first());
                    let add = match crate::text::parse_i8(rest) {
                        Some(v) => v,
                        None => 0,
                    };
                    *leveloffset = *leveloffset + add;
                } else if cs.len() > 0 && cs[0] == '-' {
                    let rest = &cs.as_slice()[1..cs.len()];
                    assert(rest@ =~= cs@.drop_first());
                    let sub = match crate::text::parse_i8(rest) {
                        Some(v) => v,
                        None => 0,
                    };
                    *leveloffset = *leveloffset - sub;
                } else {
                    match crate::text::parse_i8(cs.as_slice()) {
                        Some(v) => {
                            *leveloffset = v;
                        },
                        None => {},
                    }
                }
            },
            AttrValue::Bool(false) => {
                *leveloffset = 0;
            },
            AttrValue::Bool(true) => {},
        }
    }

    /// The level of a heading line once the include's level offset and the
    /// document's are applied; `None` when the line is not a heading.
    pub fn line_heading_level(&self, unadjusted: Option<u8>, include_leveloffset: i8) -> (r: Option<u8>)
        requires
            unadjusted matches Some(l) ==> l <= 127 && l + self.leveloffset <= 127 && adjusted_level(
                self.leveloffset as int,
                l as int,
            ) + include_leveloffset <= 127,
        ensures
            match unadjusted {
                Some(l) => r == Some(
                    adjusted_level(
                        include_leveloffset as int,
                        adjusted_level(self.leveloffset as int, l as int),
                    ) as u8,
                ),
                None => r is None,
            },
    {
        let l = unadjusted?;
        let inner = adjusted_leveloffset(self.leveloffset, l);
        Some(adjusted_leveloffset(include_leveloffset, inner))
    }

    /// Evaluates `ifdef::attrs[]` (`defined`) or `ifndef::attrs[]`.
    pub fn evaluate_ifdef(&self, defined: bool, attrs: &str) -> (r: bool)
        ensures
            r == ifdef_outcome(self.attrs@, defined, attrs@),
    {
        let cs = crate::text::chars_of(attrs);
        let mut is_any = false;
        let mut j: usize = 0;
        while j < cs.len()
            invariant
                0 <= j <= cs@.len(),
                is_any == exists|m: int| 0 <= m < j && cs@[m] == ',',
            decreases cs@.len() - j,
        {
            if cs[j] == ',' {
                is_any = true;
            }
            j = j + 1;
        }
        assert(is_any == cs@.contains(','));
        let parts = crate::text::split_bounds(cs.as_slice(), ',', '+');
        let ghost ps = crate::text::split_chars(cs@, ',', '+');
        proof {
            crate::text::lemma_split_chars_nonempty(cs@, ',', '+');
        }
        let mut result = !is_any;
        let mut k: usize = 0;
        while k < parts.len()
            invariant
                ps == crate::text::split_chars(cs@, ',', '+'),
                cs@ == attrs@,
                parts@.len() == ps.len(),
                ps.len() >= 1,
                forall|m: int|
                    0 <= m < parts@.len() ==> (#[trigger] parts@[m]).0 <= parts@[m].1 <= cs@.len()
                        && cs@.subrange(parts@[m].0 as int, parts@[m].1 as int) == ps[m],
                0 <= k <= parts@.len(),
                is_any ==> result == exists|m: int| 0 <= m < k && attr_defined(self.attrs@, #[trigger] ps[m]),
                !is_any && defined ==> result == forall|m: int| 0 <= m < k ==> attr_defined(self.attrs@, #[trigger] ps[m]),
                !is_any && !defined && k > 0 ==> result == attr_defined(self.attrs@, ps[k - 1]),
            decreases parts@.len() - k,
        {
            let (a, b) = parts[k];
            if !is_any && !result && defined {
                result = false;
            } else if is_any && result {
                result = true;
            } else {
                let name = crate::text::string_of(&cs.as_slice()[a..b]);
                assert(name@ == ps[k as int]);
                result = self.attrs.is_true(name.as_str());
            }
            k = k + 1;
        }
        if !defined {
            result = !result;
        }
        result
    }

    /// The relative depth limit when the next include would go past the
    /// include depth limit in force, `None` when it may proceed.
    pub fn exceeded_max_include_depth(&self, lexer_max: Option<(u16, u16)>, include_depth: u16) -> (r: Option<u16>)
        requires
            lexer_max matches Some(m) ==> m.0 + m.1 <= u16::MAX,
        ensures
            r == depth_exceeded(self.max_include_depth, lexer_max, include_depth),
    {
        let (rel_depth, stack_depth) = match lexer_max {
            Some(m) => m,
            None => (self.max_include_depth, 0u16),
        };
        let sum = rel_depth + stack_depth;
        let abs_depth = if sum < self.max_include_depth { sum } else { self.max_include_depth };
        if include_depth as u32 + 1 > abs_depth as u32 {
            Some(rel_depth)
        } else {
            None
        }
    }

    /// Checks an `endif::attrs[]` directive against the innermost open
    /// conditional, reporting a stray or mismatched one.
    pub fn try_process_endif_directive(&mut self, endif_attrs: Option<&str>) -> (r: DirectiveAction)
        ensures
            final(self).attrs == old(self).attrs,
            final(self).ifdef_stack@ == old(self).ifdef_stack@,
            match endif_attrs {
                None => r == DirectiveAction::Passthrough && final(self).errors@ == old(self).errors@,
                Some(a) => if old(self).ifdef_stack@.len() == 0 {
                    r == DirectiveAction::Passthrough && final(self).errors@.len() == old(self).errors@.len() + 1
                        && final(self).errors@.last()@ == "This endif directive has no previous ifdef/ifndef"@
                } else if a@.len() != 0 && old(self).ifdef_stack@.last()@ != a@ {
                    r == DirectiveAction::Passthrough && final(self).errors@.len() == old(self).errors@.len() + 1
                        && final(self).errors@.last()@ == "Mismatched endif directive, expected `"@
                        + old(self).ifdef_stack@.last()@ + "`"@
                } else {
                    r == DirectiveAction::ReadNextLine && final(self).errors@ == old(self).errors@
                },
            },
    {
        let attrs = match endif_attrs {
            None => {
                return DirectiveAction::Passthrough;
            },
            Some(a) => a,
        };
        let n = self.ifdef_stack.len();
        if n == 0 {
            self.errors.push(String::from_str("This endif directive has no previous ifdef/ifndef"));
            return DirectiveAction::Passthrough;
        }
        let expected = &self.ifdef_stack[n - 1];
        proof {
            reveal_strlit("");
            if attrs@.len() == 0 {
                assert(attrs@ =~= ""@);
            }
        }
        if !crate::text::str_eq(attrs, "") && !crate::text::str_eq(expected.as_str(), attrs) {
            let msg = String::from_str("Mismatched endif directive, expected `").concat(expected.as_str()).concat(
                "`",
            );
            self.errors.push(msg);
            return DirectiveAction::Passthrough;
        }
        DirectiveAction::ReadNextLine
    }
}

impl Parser {
    /// Processes an `ifdef::attrs[embedded]` directive (`defined`) or an
    /// `ifndef` one, given the attribute list and embedded text the
    /// directive pattern captured (`None` when the line does not match it).
    /// The condition is recorded as open; a false condition skips the block
    /// (or just the line, with embedded text); a true one keeps it, putting
    /// embedded text in place of the line.
    pub fn try_process_ifdef_directive(&mut self, defined: bool, directive: Option<(&str, &str)>) -> (r:
        DirectiveAction)
        ensures
            match directive {
                None => r == DirectiveAction::Passthrough && final(self).ifdef_stack@ == old(self).ifdef_stack@,
                Some((attrs, embedded)) => {
                    let outcome = ifdef_outcome(old(self).attrs@, defined, attrs@);
                    &&& crate::tags::strings_view(final(self).ifdef_stack@) == crate::tags::strings_view(
                        old(self).ifdef_stack@,
                    ).push(attrs@)
                    &&& !outcome && embedded@.len() == 0 ==> r == DirectiveAction::SkipLinesUntilEndIf
                    &&& (!outcome && embedded@.len() > 0) || (outcome && embedded@.len() == 0) ==> r
                        == DirectiveAction::ReadNextLine
                    &&& outcome && embedded@.len() > 0 ==> (r matches DirectiveAction::SubstituteLine(text)
                        && text@ == embedded@)
                },
            },
            final(self).attrs@ == old(self).attrs@,
            final(self).errors@ == old(self).errors@,
    {
        let (attrs, embedded) = match directive {
            None => return DirectiveAction::Passthrough,
            Some(d) => d,
        };
        let ghost before = self.ifdef_stack@;
        self.ifdef_stack.push(String::from_str(attrs));
        assert(crate::tags::strings_view(self.ifdef_stack@) =~= crate::tags::strings_view(before).push(attrs@));
        let outcome = self.evaluate_ifdef(defined, attrs);
        let empty = embedded.as_bytes().len() == 0;
        proof {
            if embedded@.len() == 0 {
                assert(embedded@ =~= Seq::<char>::empty());
                assert(vstd::utf8::encode_utf8(Seq::<char>::empty()) =~= Seq::<u8>::empty());
            } else {
                crate::token::lemma_prefix_bytes_increasing(embedded@, 0, embedded@.len() as int);
                assert(embedded@.take(0) =~= Seq::<char>::empty());
                assert(vstd::utf8::encode_utf8(Seq::<char>::empty()) =~= Seq::<u8>::empty());
                assert(embedded@.take(embedded@.len() as int) =~= embedded@);
            }
        }
        if !outcome && empty {
            DirectiveAction::SkipLinesUntilEndIf
        } else if !outcome || empty {
            DirectiveAction::ReadNextLine
        } else {
            DirectiveAction::SubstituteLine(String::from_str(embedded))
        }
    }
}

} // verus!
