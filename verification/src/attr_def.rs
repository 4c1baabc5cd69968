//! Attribute definition lines, `:name: value`, `:!name:` and `:name!:`,
//! read byte by byte from the source with their line continuations.
use vstd::prelude::*;
use vstd::string::StringExecFns;

use crate::attrs::{AttrValue, AttrValueV};
use crate::parser::Parser;
use crate::token::{SourceLocation, Token, TokenKind};

verus! {

/// How a definition unsets its attribute, if it does.
#[derive(Debug, Clone, Copy, PartialEq, Eq, Structural)]
pub enum Negation {
    Unnegated,
    /// `:!name:`
    Leading,
    /// `:name!:`
    Trailing,
}

/// The byte at `i`, if any.
pub open spec fn byte_at(src: Seq<u8>, i: int) -> Option<u8> {
    if 0 <= i < src.len() {
        Some(src[i])
    } else {
        None
    }
}

pub open spec fn is_ascii_alnum(b: u8) -> bool {
    (48 <= b <= 57) || (65 <= b <= 90) || (97 <= b <= 122)
}

/// The bytes an attribute name is made of: ASCII letters and digits, `_`
/// and `-`.
pub open spec fn is_attr_word_byte(b: u8) -> bool {
    is_ascii_alnum(b) || b == 95 || b == 45
}

/// Whether `b` may stand in an attribute name.
pub fn is_attr_word_char(b: u8) -> (r: bool)
    ensures
        r == is_attr_word_byte(b),
{
    (48 <= b && b <= 57) || (65 <= b && b <= 90) || (97 <= b && b <= 122) || b == 95 || b == 45
}

/// Reads the rest of a name from `p` on: name bytes, then `:` (or `!:`).
/// Gives where the name ends, whether a `!` stood behind it, and where the
/// closing colon is.
pub open spec fn name_scan(src: Seq<u8>, p: int) -> Option<(int, bool, int)>
    decreases src.len() - p,
{
    if 0 <= p < src.len() {
        let b = src[p];
        if is_attr_word_byte(b) {
            name_scan(src, p + 1)
        } else if b == 33 {
            if byte_at(src, p + 1) == Some(58u8) {
                Some((p, true, p + 1))
            } else {
                None
            }
        } else if b == 58 {
            Some((p, false, p))
        } else {
            None
        }
    } else {
        None
    }
}

/// The end of the line from `p`: the first `\n`, or `\r` before `\n`, or
/// the end of the source.
pub open spec fn line_end(src: Seq<u8>, p: int) -> int
    decreases src.len() - p,
{
    if p < 0 || p >= src.len() {
        p
    } else if src[p] == 10 || (src[p] == 13 && byte_at(src, p + 1) == Some(10u8)) {
        p
    } else {
        line_end(src, p + 1)
    }
}

pub proof fn lemma_line_end_bounds(src: Seq<u8>, p: int)
    ensures
        line_end(src, p) >= p,
        0 <= p <= src.len() ==> line_end(src, p) <= src.len(),
        (p < 0 || p > src.len()) ==> line_end(src, p) == p,
    decreases src.len() - p,
{
    if 0 <= p < src.len() {
        lemma_line_end_bounds(src, p + 1);
    }
}

/// Whether a `{` stands in `src[a..b]`.
pub open spec fn brace_between(src: Seq<u8>, a: int, b: int) -> bool {
    exists|i: int| a <= i < b && 0 <= i < src.len() && src[i] == 123
}

/// Whether the bytes end with `suffix`.
pub open spec fn ends_with(s: Seq<u8>, suffix: Seq<u8>) -> bool {
    s.len() >= suffix.len() && s.skip(s.len() - suffix.len()) == suffix
}

/// One line continuation: a value ending in ` \` loses the backslash (and
/// a hard break ` + \` becomes ` +` and a newline), and takes in the next
/// line.
pub open spec fn gather(src: Seq<u8>, val: Seq<u8>, pos: int, lbrace: bool) -> (Seq<u8>, int, bool)
    decreases src.len() + 3 - pos,
{
    if ends_with(val, seq![32u8, 92u8]) && 0 <= pos <= src.len() {
        let v1 = val.drop_last();
        let v2 = if ends_with(v1, seq![32u8, 43u8, 32u8]) {
            v1.drop_last().push(10u8)
        } else {
            v1
        };
        let p1 = if byte_at(src, pos + 1) == Some(13u8) {
            pos + 2
        } else {
            pos + 1
        };
        let e = line_end(src, p1);
        proof {
            lemma_line_end_bounds(src, p1);
        }
        let next = if p1 <= src.len() {
            src.subrange(p1, e)
        } else {
            Seq::empty()
        };
        gather(src, v2 + next, e, lbrace || brace_between(src, p1, e))
    } else {
        (val, pos, lbrace)
    }
}

/// ASCII lower case.
pub open spec fn lower_byte(b: u8) -> u8 {
    if 65 <= b <= 90 {
        (b + 32) as u8
    } else {
        b
    }
}

/// What reading a definition at `start` finds.
pub struct AttrDefScanV {
    /// The name, lower-cased.
    pub name: Seq<u8>,
    /// The value bytes behind the closing colon, continuations joined.
    pub value: Seq<u8>,
    pub negation: Negation,
    /// Whether a `{` appears in the value.
    pub has_lbrace: bool,
    /// The offset just past the definition (its last line's end).
    pub end: int,
}

/// The definition starting at the colon at `start`, if one does: at least
/// four bytes, an optional `!`, a name starting with a letter, digit or
/// `_`, then `:` or `!:`, then the value to the end of the line and its
/// continuation lines.
pub open spec fn scan_attr_def(src: Seq<u8>, start: int) -> Option<AttrDefScanV> {
    if !(0 <= start && start + 3 < src.len()) {
        None
    } else {
        let lead = src[start + 1] == 33;
        let np = if lead {
            start + 2
        } else {
            start + 1
        };
        let fc = src[np];
        if !(is_ascii_alnum(fc) || fc == 95) {
            None
        } else {
            match name_scan(src, np + 1) {
                None => None,
                Some(found) => {
                    let name_end = found.0;
                    let trailing = found.1;
                    let colon = found.2;
                    let e = line_end(src, colon + 1);
                    let g = gather(src, src.subrange(start, e), e, brace_between(src, colon + 1, e));
                    Some(
                        AttrDefScanV {
                            name: src.subrange(np, name_end).map_values(|b: u8| lower_byte(b)),
                            value: g.0.skip(colon + 1 - start),
                            negation: if trailing {
                                Negation::Trailing
                            } else if lead {
                                Negation::Leading
                            } else {
                                Negation::Unnegated
                            },
                            has_lbrace: g.2,
                            end: g.1,
                        },
                    )
                },
            }
        }
    }
}

fn scan_name(src: &[u8], p: usize) -> (r: Option<(usize, bool, usize)>)
    requires
        p <= src@.len(),
        src@.len() + 3 <= usize::MAX,
    ensures
        match name_scan(src@, p as int) {
            Some(x) => r matches Some(y) && y.0 as int == x.0 && y.1 == x.1 && y.2 as int == x.2,
            None => r is None,
        },
{
    let mut q = p;
    while q < src.len() && is_attr_word_char(src[q])
        invariant
            p <= q <= src@.len(),
            name_scan(src@, q as int) == name_scan(src@, p as int),
        decreases src@.len() - q,
    {
        q = q + 1;
    }
    if q >= src.len() {
        return None;
    }
    let b = src[q];
    if b == 33 {
        if q + 1 < src.len() && src[q + 1] == 58 {
            Some((q, true, q + 1))
        } else {
            None
        }
    } else if b == 58 {
        Some((q, false, q))
    } else {
        None
    }
}

fn find_line_end(src: &[u8], p: usize) -> (e: usize)
    requires
        src@.len() + 3 <= usize::MAX,
    ensures
        e as int == line_end(src@, p as int),
        p <= e,
        p <= src@.len() ==> e <= src@.len(),
        p > src@.len() ==> e == p,
{
    let mut q = p;
    while q < src.len() && !(src[q] == 10 || (src[q] == 13 && q + 1 < src.len() && src[q + 1] == 10))
        invariant
            p <= q,
            p <= src@.len() ==> q <= src@.len(),
            p > src@.len() ==> q == p,
            line_end(src@, q as int) == line_end(src@, p as int),
        decreases src@.len() - q,
    {
        q = q + 1;
    }
    q
}

fn has_brace(src: &[u8], a: usize, b: usize) -> (r: bool)
    ensures
        r == brace_between(src@, a as int, b as int),
{
    let mut i = a;
    while i < b && i < src.len()
        invariant
            a <= i,
            forall|j: int| a <= j < i && 0 <= j < src@.len() ==> src@[j] != 123,
        decreases src@.len() - i,
    {
        if src[i] == 123 {
            return true;
        }
        i = i + 1;
    }
    false
}

fn ends_with_bytes(s: &Vec<u8>, suffix: &[u8]) -> (r: bool)
    ensures
        r == ends_with(s@, suffix@),
{
    if s.len() < suffix.len() {
        return false;
    }
    let off = s.len() - suffix.len();
    let mut i: usize = 0;
    while i < suffix.len()
        invariant
            off + suffix@.len() == s@.len(),
            s@.len() <= usize::MAX,
            0 <= i <= suffix@.len(),
            forall|j: int| 0 <= j < i ==> s@[off + j] == suffix@[j],
        decreases suffix@.len() - i,
    {
        if s[off + i] != suffix[i] {
            assert(s@.skip(off as int)[i as int] != suffix@[i as int]);
            return false;
        }
        i = i + 1;
    }
    assert(s@.skip(off as int) =~= suffix@);
    true
}

/// Appends `src[a..b]`.
fn push_range(dest: &mut Vec<u8>, src: &[u8], a: usize, b: usize)
    requires
        a <= b <= src@.len(),
    ensures
        final(dest)@ == old(dest)@ + src@.subrange(a as int, b as int),
{
    let mut i = a;
    while i < b
        invariant
            a <= i <= b <= src@.len(),
            dest@ == old(dest)@ + src@.subrange(a as int, i as int),
        decreases b - i,
    {
        dest.push(src[i]);
        assert(src@.subrange(a as int, i + 1) =~= src@.subrange(a as int, i as int).push(src@[i as int]));
        i = i + 1;
    }
}

/// Joins continuation lines onto a value; gives the value, where the last
/// line ends and whether a `{` was seen.
fn gather_continuations(src: &[u8], val: Vec<u8>, pos: usize, lbrace: bool) -> (r: (Vec<u8>, usize, bool))
    requires
        pos <= src@.len(),
        src@.len() + 3 <= usize::MAX,
    ensures
        (r.0@, r.1 as int, r.2) == gather(src@, val@, pos as int, lbrace),
{
    let mut val = val;
    let mut pos = pos;
    let mut lbrace = lbrace;
    let ghost target = gather(src@, val@, pos as int, lbrace);
    let space_backslash = [32u8, 92u8];
    let space_plus_space = [32u8, 43u8, 32u8];
    assert(space_backslash@ =~= seq![32u8, 92u8]);
    assert(space_plus_space@ =~= seq![32u8, 43u8, 32u8]);
    while pos <= src.len() && ends_with_bytes(&val, space_backslash.as_slice())
        invariant
            pos <= src@.len() + 2,
            src@.len() + 3 <= usize::MAX,
            space_backslash@ == seq![32u8, 92u8],
            space_plus_space@ == seq![32u8, 43u8, 32u8],
            gather(src@, val@, pos as int, lbrace) == target,
        decreases src@.len() + 3 - pos,
    {
        val.pop();
        if ends_with_bytes(&val, space_plus_space.as_slice()) {
            val.pop();
            val.push(10u8);
        }
        let p1 = if pos + 1 < src.len() && src[pos + 1] == 13 {
            pos + 2
        } else {
            pos + 1
        };
        let e = find_line_end(src, p1);
        let brace = has_brace(src, p1, e);
        if p1 <= src.len() {
            push_range(&mut val, src, p1, e);
        } else {
            assert(val@ + Seq::<u8>::empty() =~= val@);
        }
        lbrace = lbrace || brace;
        pos = e;
    }
    (val, pos, lbrace)
}

/// Joining continuations never touches the bytes up to the closing colon.
pub proof fn lemma_gather_keeps_prefix(src: Seq<u8>, val: Seq<u8>, pos: int, lbrace: bool, k: int)
    requires
        1 <= k <= val.len(),
        val[k - 1] == 58,
    ensures
        gather(src, val, pos, lbrace).0.len() >= k,
        gather(src, val, pos, lbrace).0.take(k) == val.take(k),
    decreases src.len() + 3 - pos,
{
    if ends_with(val, seq![32u8, 92u8]) && 0 <= pos <= src.len() {
        assert(val.skip(val.len() - 2)[0] == val[val.len() - 2]);
        assert(val.skip(val.len() - 2)[1] == val[val.len() - 1]);
        let v1 = val.drop_last();
        let v2 = if ends_with(v1, seq![32u8, 43u8, 32u8]) {
            assert(v1.skip(v1.len() - 3)[0] == v1[v1.len() - 3]);
            assert(v1.skip(v1.len() - 3)[1] == v1[v1.len() - 2]);
            assert(v1.skip(v1.len() - 3)[2] == v1[v1.len() - 1]);
            v1.drop_last().push(10u8)
        } else {
            v1
        };
        let p1 = if byte_at(src, pos + 1) == Some(13u8) {
            pos + 2
        } else {
            pos + 1
        };
        let e = line_end(src, p1);
        lemma_line_end_bounds(src, p1);
        let next = if p1 <= src.len() {
            src.subrange(p1, e)
        } else {
            Seq::empty()
        };
        assert(v2.len() >= k);
        assert(v2.take(k) =~= val.take(k));
        assert((v2 + next).take(k) =~= val.take(k));
        assert((v2 + next)[k - 1] == val[k - 1]);
        lemma_gather_keeps_prefix(src, v2 + next, e, lbrace || brace_between(src, p1, e), k);
    }
}

/// What reading a definition finds, as plain values.
#[derive(Debug)]
pub struct AttrDefScan {
    pub name: Vec<u8>,
    pub value: Vec<u8>,
    pub negation: Negation,
    pub has_lbrace: bool,
    pub end: usize,
}

/// Reads the attribute definition whose colon is at `start`, if one starts
/// there.
pub fn scan_attr_def_at(src: &[u8], start: usize) -> (r: Option<AttrDefScan>)
    requires
        src@.len() + 3 <= usize::MAX,
    ensures
        match scan_attr_def(src@, start as int) {
            Some(v) => r matches Some(x) && x.name@ == v.name && x.value@ == v.value && x.negation
                == v.negation && x.has_lbrace == v.has_lbrace && x.end as int == v.end,
            None => r is None,
        },
{
    if !(start < src.len() && src.len() - start > 3) {
        return None;
    }
    let lead = src[start + 1] == 33;
    let np = if lead {
        start + 2
    } else {
        start + 1
    };
    let fc = src[np];
    if !((48 <= fc && fc <= 57) || (65 <= fc && fc <= 90) || (97 <= fc && fc <= 122) || fc == 95) {
        return None;
    }
    let (name_end, trailing, colon) = match scan_name(src, np + 1) {
        Some(found) => found,
        None => return None,
    };
    proof {
        lemma_name_scan_bounds(src@, np + 1);
    }
    let e = find_line_end(src, colon + 1);
    let brace = has_brace(src, colon + 1, e);
    let mut first_line: Vec<u8> = Vec::new();
    push_range(&mut first_line, src, start, e);
    assert(first_line@ =~= src@.subrange(start as int, e as int));
    let ghost k = colon + 1 - start;
    assert(first_line@[k - 1] == src@[colon as int]);
    proof {
        lemma_gather_keeps_prefix(src@, first_line@, e as int, brace, k);
    }
    let (val, end, has_lbrace) = gather_continuations(src, first_line, e, brace);
    let mut name: Vec<u8> = Vec::new();
    let mut i = np;
    while i < name_end
        invariant
            np <= i <= name_end <= src@.len(),
            name@ == src@.subrange(np as int, i as int).map_values(|b: u8| lower_byte(b)),
        decreases name_end - i,
    {
        let b = src[i];
        let lb = if 65 <= b && b <= 90 {
            b + 32
        } else {
            b
        };
        name.push(lb);
        assert(src@.subrange(np as int, i + 1).map_values(|b: u8| lower_byte(b)) =~= src@.subrange(
            np as int,
            i as int,
        ).map_values(|b: u8| lower_byte(b)).push(lower_byte(b)));
        i = i + 1;
    }
    let mut value: Vec<u8> = Vec::new();
    let vs = colon + 1 - start;
    push_range(&mut value, val.as_slice(), vs, val.len());
    assert(value@ =~= val@.skip(vs as int));
    let negation = if trailing {
        Negation::Trailing
    } else if lead {
        Negation::Leading
    } else {
        Negation::Unnegated
    };
    Some(AttrDefScan { name, value, negation, has_lbrace, end })
}

pub proof fn lemma_name_scan_bounds(src: Seq<u8>, p: int)
    requires
        0 <= p,
    ensures
        name_scan(src, p) matches Some(x) ==> p <= x.0 <= x.2 < src.len() && x.2 <= x.0 + 1 && src[x.2] == 58,
    decreases src.len() - p,
{
    if 0 <= p < src.len() && is_attr_word_byte(src[p]) {
        lemma_name_scan_bounds(src, p + 1);
    }
}

/// The value a definition gives: its trimmed text, or, when there is none,
/// set (plain) or unset (negated).
pub open spec fn attr_value_of(text: Seq<char>, neg: Negation) -> crate::attrs::AttrValueV {
    let t = crate::text::trim(text);
    if t.len() == 0 {
        crate::attrs::AttrValueV::Bool(neg == Negation::Unnegated)
    } else {
        crate::attrs::AttrValueV::String(t)
    }
}

/// A negated definition may not carry a value.
pub open spec fn negated_with_value(text: Seq<char>, neg: Negation) -> bool {
    crate::text::trim(text).len() > 0 && neg != Negation::Unnegated
}

/// Whether the definition ends within the source and its bytes decode as
/// text. (A continuation backslash on the last line of the source points
/// past its end.)
pub open spec fn decodes(src: Seq<u8>, start: int, v: AttrDefScanV) -> bool {
    &&& start <= v.end <= src.len()
    &&& vstd::utf8::valid_utf8(v.value)
    &&& vstd::utf8::valid_utf8(v.name)
    &&& vstd::utf8::valid_utf8(src.subrange(start, v.end))
}

/// The value a scanned definition gives.
pub fn attr_value_from(text: &str, neg: Negation) -> (r: AttrValue)
    ensures
        r@ == attr_value_of(text@, neg),
{
    let cs = crate::text::chars_of(text);
    let (a, b) = crate::text::trim_bounds(cs.as_slice(), 0, cs.len());
    assert(cs@.subrange(0, cs@.len() as int) =~= cs@);
    if a == b {
        AttrValue::Bool(neg == Negation::Unnegated)
    } else {
        AttrValue::String(crate::text::string_of(&cs.as_slice()[a..b]))
    }
}

/// The record of an attribute definition read from the source: its name
/// (lower-cased), where it stands, its value, whether a `{` appears in its
/// value, and whether it stands in the header.
#[derive(Debug)]
pub struct AttrDef {
    pub name: String,
    pub loc: SourceLocation,
    pub value: AttrValue,
    pub has_lbrace: bool,
    pub in_header: bool,
}

/// A definition record as the specifications see it.
pub open spec fn attr_def_view(d: AttrDef) -> (Seq<char>, SourceLocation, AttrValueV, bool, bool) {
    (d.name@, d.loc, d.value@, d.has_lbrace, d.in_header)
}

/// The error reported for `:!name: value` and `:name!: value`.
pub open spec fn unset_with_value_message() -> Seq<char> {
    "Cannot unset attr with `!` AND provide value"@
}

impl Parser {
    /// Reads an attribute definition starting at `token` (the colon of its
    /// line) in the source bytes `src`. When one is there, its value is
    /// applied (`leveloffset` moves the level offset; in the header the
    /// attribute is set) and the token becomes the whole definition.
    pub fn try_parse_attr_def(&mut self, src: &[u8], token: &mut Token, in_header: bool) -> (r: Result<
        (),
        crate::parser::Diagnostic,
    >)
        requires
            src@.len() <= u32::MAX,
            src@.len() + 3 <= usize::MAX,
            match scan_attr_def(src@, old(token).loc.start as int) {
                Some(v) => decodes(src@, old(token).loc.start as int, v) && vstd::utf8::decode_utf8(v.name)
                    == "leveloffset"@ ==> -128 <= crate::parser::leveloffset_after(
                    old(self).leveloffset as int,
                    attr_value_of(vstd::utf8::decode_utf8(v.value), v.negation),
                ) <= 127,
                None => true,
            },
        ensures
            match scan_attr_def(src@, old(token).loc.start as int) {
                Some(v) if decodes(src@, old(token).loc.start as int, v) => {
                    let start = old(token).loc.start as int;
                    let name = vstd::utf8::decode_utf8(v.name);
                    let text = vstd::utf8::decode_utf8(v.value);
                    let value = attr_value_of(text, v.negation);
                    if old(self).strict && negated_with_value(text, v.negation) {
                        &&& r matches Err(d) && crate::parser::diag_view(d) == (
                            unset_with_value_message(),
                            old(token).loc.start,
                            v.end as u32,
                        )
                        &&& *final(token) == *old(token)
                        &&& final(self).leveloffset == old(self).leveloffset
                        &&& final(self).attrs@ == old(self).attrs@
                        &&& final(self).errors@ == old(self).errors@
                        &&& final(self).attr_defs@ == old(self).attr_defs@
                    } else {
                    &&& r is Ok
                    &&& final(token).kind == TokenKind::AttrDef
                    &&& final(token).loc == (SourceLocation {
                        start: old(token).loc.start,
                        end: v.end as u32,
                        include_depth: old(token).loc.include_depth,
                    })
                    &&& final(token).lexeme@ == vstd::utf8::decode_utf8(src@.subrange(start, v.end))
                    &&& final(self).leveloffset == if name == "leveloffset"@ {
                        crate::parser::leveloffset_after(old(self).leveloffset as int, value) as i8
                    } else {
                        old(self).leveloffset
                    }
                    &&& if in_header {
                        &&& crate::attrs::lookup(final(self).attrs@, name) == Some(value)
                        &&& forall|k: Seq<char>| k != name ==> crate::attrs::lookup(final(self).attrs@, k)
                            == crate::attrs::lookup(old(self).attrs@, k)
                    } else {
                        final(self).attrs@ == old(self).attrs@
                    }
                    &&& final(self).attr_defs@.len() == old(self).attr_defs@.len() + 1
                    &&& final(self).attr_defs@.drop_last() == old(self).attr_defs@
                    &&& attr_def_view(final(self).attr_defs@.last()) == (
                        name,
                        SourceLocation { start: old(token).loc.start, end: v.end as u32, include_depth: old(token).loc.include_depth },
                        value,
                        v.has_lbrace,
                        in_header,
                    )
                    &&& final(self).errors@.map_values(|e: String| e@) == if negated_with_value(text, v.negation) {
                        old(self).errors@.map_values(|e: String| e@).push(unset_with_value_message())
                    } else {
                        old(self).errors@.map_values(|e: String| e@)
                    }
                    }
                },
                _ => r is Ok && *final(token) == *old(token) && final(self).leveloffset == old(self).leveloffset
                    && final(self).attrs@ == old(self).attrs@ && final(self).errors@ == old(self).errors@
                    && final(self).attr_defs@ == old(self).attr_defs@,
            },
            final(self).anchor_ids@ == old(self).anchor_ids@,
            final(self).ifdef_stack@ == old(self).ifdef_stack@,
            final(self).max_include_depth == old(self).max_include_depth,
            final(self).strict == old(self).strict,
    {
        let start = token.loc.start as usize;
        let scan = match scan_attr_def_at(src, start) {
            Some(sc) => sc,
            None => return Ok(()),
        };
        proof {
            lemma_line_end_bounds(src@, 0);
        }
        let text = match crate::encoding::utf8_string(scan.value.as_slice()) {
            Some(t) => t,
            None => return Ok(()),
        };
        let name = match crate::encoding::utf8_string(scan.name.as_slice()) {
            Some(n) => n,
            None => return Ok(()),
        };
        if !(start <= scan.end && scan.end <= src.len()) {
            return Ok(());
        }
        let lexeme = match crate::encoding::utf8_string(&src[start..scan.end]) {
            Some(l) => l,
            None => return Ok(()),
        };
        let value = attr_value_from(text.as_str(), scan.negation);
        let cs = crate::text::chars_of(text.as_str());
        let (a, b) = crate::text::trim_bounds(cs.as_slice(), 0, cs.len());
        assert(cs@.subrange(0, cs@.len() as int) =~= cs@);
        if a != b && scan.negation != Negation::Unnegated {
            if self.strict {
                return Err(crate::parser::Diagnostic {
                    message: String::from_str("Cannot unset attr with `!` AND provide value"),
                    start: token.loc.start,
                    end: scan.end as u32,
                });
            }
            let ghost before = self.errors@;
            self.errors.push(String::from_str("Cannot unset attr with `!` AND provide value"));
            assert(self.errors@.map_values(|e: String| e@) =~= before.map_values(|e: String| e@).push(
                unset_with_value_message(),
            ));
        }
        let loc = SourceLocation { start: token.loc.start, end: scan.end as u32, include_depth: token.loc.include_depth };
        self.attr_defs.push(
            AttrDef { name: String::from_str(name.as_str()), loc, value: value.duplicate(), has_lbrace: scan.has_lbrace, in_header },
        );
        if crate::text::str_eq(name.as_str(), "leveloffset") {
            Parser::adjust_leveloffset(&mut self.leveloffset, &value);
        }
        if in_header {
            self.attrs.insert(name, value);
        }
        token.kind = TokenKind::AttrDef;
        token.loc = SourceLocation { start: token.loc.start, end: scan.end as u32, include_depth: token.loc.include_depth };
        token.lexeme = lexeme;
        Ok(())
    }
}

} // verus!
