//! Tag selection for include directives (`tag=` and `tags=` attributes):
//! parsing selections, combining them, and filtering an included file's
//! lines by the tagged regions they fall in.
use vstd::prelude::*;

use crate::bytes::extend_range;
use crate::lines::line_bounds;
use crate::text::{chars_of, range_eq, string_of};

verus! {

/// One term of a tag selection.
#[derive(Debug, PartialEq, Eq)]
pub enum Spec {
    /// `**`
    AllNonTagDirectiveLines,
    /// `!**`
    NoLines,
    /// `*`
    AllTaggedRegions,
    /// `!*`
    AllUntaggedRegions,
    /// `foo`
    Tag(String),
    /// `!foo`
    AllLinesExcl(String),
    /// `foo;!*`
    TagExclAllNested(String),
    /// `foo;!bar`
    TagExclNested(String, String),
    /// `*;!foo`
    AllTaggedExcl(String),
    /// `!*;foo`
    AllUntaggedIncl(String),
}

/// A selection term with its tag names as char sequences.
pub enum SpecV {
    AllNonTagDirectiveLines,
    NoLines,
    AllTaggedRegions,
    AllUntaggedRegions,
    Tag(Seq<char>),
    AllLinesExcl(Seq<char>),
    TagExclAllNested(Seq<char>),
    TagExclNested(Seq<char>, Seq<char>),
    AllTaggedExcl(Seq<char>),
    AllUntaggedIncl(Seq<char>),
}

impl View for Spec {
    type V = SpecV;

    open spec fn view(&self) -> SpecV {
        match self {
            Spec::AllNonTagDirectiveLines => SpecV::AllNonTagDirectiveLines,
            Spec::NoLines => SpecV::NoLines,
            Spec::AllTaggedRegions => SpecV::AllTaggedRegions,
            Spec::AllUntaggedRegions => SpecV::AllUntaggedRegions,
            Spec::Tag(t) => SpecV::Tag(t@),
            Spec::AllLinesExcl(t) => SpecV::AllLinesExcl(t@),
            Spec::TagExclAllNested(t) => SpecV::TagExclAllNested(t@),
            Spec::TagExclNested(a, b) => SpecV::TagExclNested(a@, b@),
            Spec::AllTaggedExcl(t) => SpecV::AllTaggedExcl(t@),
            Spec::AllUntaggedIncl(t) => SpecV::AllUntaggedIncl(t@),
        }
    }
}

/// A tag selection: the terms in the order they combine.
#[derive(Debug, PartialEq, Eq)]
pub struct TagSpecs(pub Vec<Spec>);

impl View for TagSpecs {
    type V = Seq<SpecV>;

    open spec fn view(&self) -> Seq<SpecV> {
        self.0@.map_values(|s: Spec| s@)
    }
}

/// The tags open at a line, innermost last, each with the index of the line
/// that opened it.
#[derive(Debug)]
pub struct TagStack(pub Vec<(String, usize)>);

impl View for TagStack {
    type V = Seq<(Seq<char>, usize)>;

    open spec fn view(&self) -> Seq<(Seq<char>, usize)> {
        self.0@.map_values(|e: (String, usize)| (e.0@, e.1))
    }
}

pub open spec fn stack_contains(st: Seq<(Seq<char>, usize)>, tag: Seq<char>) -> bool {
    exists|i: int| 0 <= i < st.len() && (#[trigger] st[i]).0 == tag
}

pub open spec fn stack_last_is(st: Seq<(Seq<char>, usize)>, tag: Seq<char>) -> bool {
    st.len() > 0 && st.last().0 == tag
}

/// Whether a line inside the open tags `st` is selected by the term.
pub open spec fn satisfies(spec: SpecV, st: Seq<(Seq<char>, usize)>) -> bool {
    match spec {
        SpecV::AllNonTagDirectiveLines => true,
        SpecV::NoLines => false,
        SpecV::AllTaggedRegions => st.len() > 0,
        SpecV::AllUntaggedRegions => st.len() == 0,
        SpecV::Tag(t) => stack_contains(st, t),
        SpecV::AllLinesExcl(t) => !stack_contains(st, t),
        SpecV::TagExclAllNested(t) => stack_last_is(st, t),
        SpecV::TagExclNested(i, e) => stack_contains(st, i) && !stack_contains(st, e),
        SpecV::AllTaggedExcl(t) => st.len() > 0 && !stack_contains(st, t),
        SpecV::AllUntaggedIncl(t) => st.len() == 0 || stack_last_is(st, t),
    }
}

impl TagStack {
    pub fn new() -> (s: TagStack)
        ensures
            s@ == Seq::<(Seq<char>, usize)>::empty(),
    {
        TagStack(Vec::new())
    }

    pub fn push(&mut self, tag: String, line_idx: usize)
        ensures
            final(self)@ == old(self)@.push((tag@, line_idx)),
    {
        self.0.push((tag, line_idx));
        assert(self@ =~= old(self)@.push((tag@, line_idx)));
    }

    pub fn pop(&mut self)
        ensures
            old(self)@.len() > 0 ==> final(self)@ == old(self)@.drop_last(),
            old(self)@.len() == 0 ==> final(self)@ == old(self)@,
    {
        if self.0.len() > 0 {
            self.0.pop();
            assert(self@ =~= old(self)@.drop_last());
        }
    }

    pub fn is_empty(&self) -> (r: bool)
        ensures
            r == (self@.len() == 0),
    {
        self.0.len() == 0
    }

    pub fn last_is(&self, tag: &str) -> (r: bool)
        ensures
            r == stack_last_is(self@, tag@),
    {
        if self.0.len() == 0 {
            false
        } else {
            let last = &self.0[self.0.len() - 1];
            crate::text::str_eq(last.0.as_str(), tag)
        }
    }

    pub fn last(&self) -> (r: Option<&(String, usize)>)
        ensures
            self@.len() == 0 ==> r is None,
            self@.len() > 0 ==> (r matches Some(e) && (e.0@, e.1) == self@.last()),
    {
        if self.0.len() == 0 {
            None
        } else {
            Some(&self.0[self.0.len() - 1])
        }
    }

    pub fn contains(&self, tag: &str) -> (r: bool)
        ensures
            r == stack_contains(self@, tag@),
    {
        let mut i: usize = 0;
        while i < self.0.len()
            invariant
                0 <= i <= self.0@.len(),
                forall|j: int| 0 <= j < i ==> (#[trigger] self@[j]).0 != tag@,
            decreases self.0@.len() - i,
        {
            if crate::text::str_eq(self.0[i].0.as_str(), tag) {
                assert(self@[i as int].0 == tag@);
                return true;
            }
            i = i + 1;
        }
        false
    }
}

impl Spec {
    /// Whether a line inside the open tags `stack` is selected by this term.
    pub fn satisfied_by(&self, stack: &TagStack) -> (r: bool)
        ensures
            r == satisfies(self@, stack@),
    {
        match self {
            Spec::AllNonTagDirectiveLines => true,
            Spec::NoLines => false,
            Spec::AllTaggedRegions => !stack.is_empty(),
            Spec::AllUntaggedRegions => stack.is_empty(),
            Spec::Tag(tag) => stack.contains(tag.as_str()),
            Spec::AllLinesExcl(tag) => !stack.contains(tag.as_str()),
            Spec::TagExclAllNested(tag) => stack.last_is(tag.as_str()),
            Spec::TagExclNested(incl, excl) => stack.contains(incl.as_str()) && !stack.contains(
                excl.as_str(),
            ),
            Spec::AllTaggedExcl(tag) => !stack.is_empty() && !stack.contains(tag.as_str()),
            Spec::AllUntaggedIncl(tag) => stack.is_empty() || stack.last_is(tag.as_str()),
        }
    }
}

/// How the terms of a selection combine.
#[derive(Debug, PartialEq, Eq, Structural, Clone, Copy)]
pub enum Strategy {
    Any,
    All,
}

pub open spec fn is_all_lines_excl(s: SpecV) -> bool {
    s is AllLinesExcl
}

/// A selection combines by `All` when it starts with `**` or consists only
/// of `!foo` terms, and by `Any` otherwise.
pub open spec fn strategy_of(specs: Seq<SpecV>) -> Strategy {
    if specs.len() > 0 && specs[0] is AllNonTagDirectiveLines {
        Strategy::All
    } else if forall|i: int| 0 <= i < specs.len() ==> is_all_lines_excl(#[trigger] specs[i]) {
        Strategy::All
    } else {
        Strategy::Any
    }
}

/// The selection after one more term is combined into it.
pub open spec fn pushed(specs: Seq<SpecV>, spec: SpecV) -> Seq<SpecV> {
    if specs.len() == 0 {
        seq![spec]
    } else {
        let rest = specs.drop_last();
        match (specs.last(), spec) {
            (SpecV::Tag(p), SpecV::AllLinesExcl(t)) => rest.push(SpecV::TagExclNested(p, t)),
            (SpecV::Tag(p), SpecV::AllUntaggedRegions) => rest.push(SpecV::TagExclAllNested(p)),
            (SpecV::AllTaggedRegions, SpecV::AllLinesExcl(t)) => if rest.contains(
                SpecV::AllNonTagDirectiveLines,
            ) {
                rest.push(SpecV::AllLinesExcl(t))
            } else {
                rest.push(SpecV::AllTaggedExcl(t))
            },
            (SpecV::AllUntaggedRegions, SpecV::Tag(t)) => if rest.len() > 0 && rest.last()
                is NoLines {
                rest.push(SpecV::TagExclAllNested(t))
            } else {
                rest.push(SpecV::AllUntaggedIncl(t))
            },
            (SpecV::AllNonTagDirectiveLines, SpecV::Tag(_)) => rest.push(
                SpecV::AllNonTagDirectiveLines,
            ),
            (SpecV::NoLines, SpecV::AllLinesExcl(t)) => rest.push(SpecV::AllTaggedExcl(t)),
            (SpecV::AllUntaggedIncl(p), SpecV::AllLinesExcl(t)) => if p == t {
                rest.push(SpecV::AllUntaggedRegions)
            } else {
                specs.push(spec)
            },
            (_, SpecV::AllNonTagDirectiveLines) => seq![SpecV::AllNonTagDirectiveLines],
            _ => specs.push(spec),
        }
    }
}

proof fn lemma_map_push(v: Seq<Spec>, s: Spec)
    ensures
        v.push(s).map_values(|x: Spec| x@) == v.map_values(|x: Spec| x@).push(s@),
{
    assert(v.push(s).map_values(|x: Spec| x@) =~= v.map_values(|x: Spec| x@).push(s@));
}

impl TagSpecs {
    /// How the terms combine: `All` when the selection starts with `**` or
    /// has only `!foo` terms, `Any` otherwise.
    pub fn strategy(&self) -> (r: Strategy)
        ensures
            r == strategy_of(self@),
    {
        if self.0.len() > 0 {
            match &self.0[0] {
                Spec::AllNonTagDirectiveLines => {
                    return Strategy::All;
                },
                _ => {},
            }
        }
        let mut i: usize = 0;
        while i < self.0.len()
            invariant
                0 <= i <= self.0@.len(),
                !(self@.len() > 0 && self@[0] is AllNonTagDirectiveLines),
                forall|j: int| 0 <= j < i ==> is_all_lines_excl(#[trigger] self@[j]),
            decreases self.0@.len() - i,
        {
            match &self.0[i] {
                Spec::AllLinesExcl(_) => {},
                _ => {
                    assert(!is_all_lines_excl(self@[i as int]));
                    return Strategy::Any;
                },
            }
            i = i + 1;
        }
        Strategy::All
    }

    fn contains_all_non_tag(&self) -> (r: bool)
        ensures
            r == self@.contains(SpecV::AllNonTagDirectiveLines),
    {
        let mut i: usize = 0;
        while i < self.0.len()
            invariant
                0 <= i <= self.0@.len(),
                forall|j: int| 0 <= j < i ==> !(#[trigger] self@[j] is AllNonTagDirectiveLines),
            decreases self.0@.len() - i,
        {
            match &self.0[i] {
                Spec::AllNonTagDirectiveLines => {
                    assert(self@[i as int] == SpecV::AllNonTagDirectiveLines);
                    return true;
                },
                _ => {},
            }
            i = i + 1;
        }
        false
    }

    fn last_is_no_lines(&self) -> (r: bool)
        ensures
            r == (self@.len() > 0 && self@.last() is NoLines),
    {
        if self.0.len() == 0 {
            false
        } else {
            match &self.0[self.0.len() - 1] {
                Spec::NoLines => true,
                _ => false,
            }
        }
    }

    fn push_spec(&mut self, s: Spec)
        ensures
            final(self)@ == old(self)@.push(s@),
    {
        proof {
            lemma_map_push(self.0@, s);
        }
        self.0.push(s);
    }

    /// Combines one more term into the selection, following the rules
    /// asciidoctor applies (`foo;!bar`, `*;!foo`, `!*;foo`, ...).
    pub fn push(&mut self, spec: Spec)
        ensures
            final(self)@ == pushed(old(self)@, spec@),
    {
        let ghost old_v = self@;
        let prev = self.0.pop();
        let ghost rest = self@;
        proof {
            if old_v.len() > 0 {
                assert(rest =~= old_v.drop_last());
            }
        }
        match prev {
            None => {
                self.push_spec(spec);
            },
            Some(p) => {
                assert(p@ == old_v.last());
                match (p, spec) {
                    (Spec::Tag(prev), Spec::AllLinesExcl(tag)) => {
                        self.push_spec(Spec::TagExclNested(prev, tag));
                    },
                    (Spec::Tag(prev), Spec::AllUntaggedRegions) => {
                        self.push_spec(Spec::TagExclAllNested(prev));
                    },
                    (Spec::AllTaggedRegions, Spec::AllLinesExcl(tag)) => {
                        if self.contains_all_non_tag() {
                            self.push_spec(Spec::AllLinesExcl(tag));
                        } else {
                            self.push_spec(Spec::AllTaggedExcl(tag));
                        }
                    },
                    (Spec::AllUntaggedRegions, Spec::Tag(tag)) => {
                        if self.last_is_no_lines() {
                            self.push_spec(Spec::TagExclAllNested(tag));
                        } else {
                            self.push_spec(Spec::AllUntaggedIncl(tag));
                        }
                    },
                    (Spec::AllNonTagDirectiveLines, Spec::Tag(_)) => {
                        self.push_spec(Spec::AllNonTagDirectiveLines);
                    },
                    (Spec::NoLines, Spec::AllLinesExcl(tag)) => {
                        self.push_spec(Spec::AllTaggedExcl(tag));
                    },
                    (Spec::AllUntaggedIncl(prev), Spec::AllLinesExcl(tag)) => {
                        if prev == tag {
                            self.push_spec(Spec::AllUntaggedRegions);
                        } else {
                            self.push_spec(Spec::AllUntaggedIncl(prev));
                            self.push_spec(Spec::AllLinesExcl(tag));
                            assert(rest.push(old_v.last()) =~= old_v);
                        }
                    },
                    (_, Spec::AllNonTagDirectiveLines) => {
                        self.0 = Vec::new();
                        self.push_spec(Spec::AllNonTagDirectiveLines);
                        assert(self@ =~= seq![SpecV::AllNonTagDirectiveLines]);
                    },
                    (prev, spec) => {
                        self.push_spec(prev);
                        self.push_spec(spec);
                        assert(rest.push(old_v.last()) =~= old_v);
                    },
                }
            },
        }
    }

    /// The terms in order.
    pub fn specs(&self) -> (r: &Vec<Spec>)
        ensures
            r@.map_values(|s: Spec| s@) == self@,
    {
        &self.0
    }
}

/// Whether some char of `s` is whitespace.
pub open spec fn has_ws(s: Seq<char>) -> bool {
    exists|i: int| 0 <= i < s.len() && crate::text::is_ws(#[trigger] s[i])
}

/// The selection term a part of a `tags` attribute denotes, if any.
pub open spec fn spec_of_part(s: Seq<char>) -> Option<SpecV> {
    let t = crate::text::trim(s);
    if t == "**"@ {
        Some(SpecV::AllNonTagDirectiveLines)
    } else if t == "!**"@ {
        Some(SpecV::NoLines)
    } else if t == "*"@ {
        Some(SpecV::AllTaggedRegions)
    } else if t == "!*"@ {
        Some(SpecV::AllUntaggedRegions)
    } else if t.len() == 0 {
        None
    } else {
        let negated = t[0] == '!';
        let tag = if negated { t.drop_first() } else { t };
        if tag.len() > 0 && !has_ws(tag) {
            Some(if negated { SpecV::AllLinesExcl(tag) } else { SpecV::Tag(tag) })
        } else {
            None
        }
    }
}

/// The terms of the parts, combined in order.
pub open spec fn combined(parts: Seq<Seq<char>>) -> Seq<SpecV>
    decreases parts.len(),
{
    if parts.len() == 0 {
        Seq::empty()
    } else {
        let acc = combined(parts.drop_last());
        match spec_of_part(parts.last()) {
            Some(sp) => pushed(acc, sp),
            None => acc,
        }
    }
}

/// The selection a `tags` attribute denotes.
pub open spec fn selection_of(s: Seq<char>) -> Seq<SpecV> {
    combined(crate::text::split_chars(crate::text::trim(s), ',', ';'))
}

#[verifier::loop_isolation(false)]
fn spec_of_range(cs: &[char], start: usize, end: usize) -> (r: Option<Spec>)
    requires
        start <= end <= cs@.len(),
    ensures
        match spec_of_part(cs@.subrange(start as int, end as int)) {
            Some(sv) => r matches Some(sp) && sp@ == sv,
            None => r is None,
        },
{
    let (a, b) = crate::text::trim_bounds(cs, start, end);
    let ghost t = cs@.subrange(a as int, b as int);
    let star2 = chars_of("**");
    let nstar2 = chars_of("!**");
    let star = chars_of("*");
    let nstar = chars_of("!*");
    if range_eq(cs, a, b, star2.as_slice()) {
        return Some(Spec::AllNonTagDirectiveLines);
    }
    if range_eq(cs, a, b, nstar2.as_slice()) {
        return Some(Spec::NoLines);
    }
    if range_eq(cs, a, b, star.as_slice()) {
        return Some(Spec::AllTaggedRegions);
    }
    if range_eq(cs, a, b, nstar.as_slice()) {
        return Some(Spec::AllUntaggedRegions);
    }
    if a == b {
        return None;
    }
    let negated = cs[a] == '!';
    assert(t[0] == cs@[a as int]);
    let ts = if negated { a + 1 } else { a };
    let ghost tag = cs@.subrange(ts as int, b as int);
    proof {
        if negated {
            assert(tag =~= t.drop_first());
        } else {
            assert(tag =~= t);
        }
    }
    if ts == b {
        return None;
    }
    let mut i = ts;
    while i < b
        invariant
            ts <= i <= b <= cs@.len(),
            tag == cs@.subrange(ts as int, b as int),
            forall|j: int| 0 <= j < i - ts ==> !crate::text::is_ws(#[trigger] tag[j]),
        decreases b - i,
    {
        if crate::text::is_whitespace(cs[i]) {
            assert(tag[i - ts] == cs@[i as int]);
            assert(crate::text::is_ws(tag[i - ts]));
            assert(has_ws(tag));
            return None;
        }
        i = i + 1;
    }
    let name = string_of(&cs[ts..b]);
    assert(cs@.subrange(ts as int, b as int) == tag);
    if negated {
        Some(Spec::AllLinesExcl(name))
    } else {
        Some(Spec::Tag(name))
    }
}

/// Parses one term of a tag selection: `**`, `!**`, `*`, `!*`, `foo` or
/// `!foo`; a tag name must be non-empty and free of whitespace.
pub fn parse_spec(s: &str) -> (r: Option<Spec>)
    ensures
        match spec_of_part(s@) {
            Some(sv) => r matches Some(sp) && sp@ == sv,
            None => r is None,
        },
{
    let cs = chars_of(s);
    assert(cs@.subrange(0, cs@.len() as int) =~= cs@);
    spec_of_range(cs.as_slice(), 0, cs.len())
}

/// Parses a `tags` attribute: terms separated by `,` or `;`, combined in
/// order.
pub fn parse_selection(s: &str) -> (r: TagSpecs)
    ensures
        r@ == selection_of(s@),
{
    let cs = chars_of(s);
    let (a, b) = crate::text::trim_bounds(cs.as_slice(), 0, cs.len());
    assert(cs@.subrange(0, cs@.len() as int) =~= cs@);
    let tcs: Vec<char> = slice_to_vec(&cs.as_slice()[a..b]);
    let parts = crate::text::split_bounds(tcs.as_slice(), ',', ';');
    let ghost ps = crate::text::split_chars(tcs@, ',', ';');
    let mut sel = TagSpecs(Vec::new());
    assert(sel@ =~= Seq::<SpecV>::empty());
    let mut k: usize = 0;
    while k < parts.len()
        invariant
            tcs@ == crate::text::trim(s@),
            ps == crate::text::split_chars(tcs@, ',', ';'),
            parts@.len() == ps.len(),
            forall|j: int|
                0 <= j < parts@.len() ==> (#[trigger] parts@[j]).0 <= parts@[j].1 <= tcs@.len()
                    && tcs@.subrange(parts@[j].0 as int, parts@[j].1 as int) == ps[j],
            0 <= k <= parts@.len(),
            sel@ == combined(ps.take(k as int)),
        decreases parts@.len() - k,
    {
        let (ps_start, ps_end) = parts[k];
        proof {
            assert(ps.take(k + 1).drop_last() =~= ps.take(k as int));
            assert(ps.take(k + 1).last() == ps[k as int]);
        }
        match spec_of_range(tcs.as_slice(), ps_start, ps_end) {
            Some(sp) => sel.push(sp),
            None => {},
        }
        k = k + 1;
    }
    assert(ps.take(parts@.len() as int) =~= ps);
    sel
}

/// Copies a slice into a vector.
fn slice_to_vec(s: &[char]) -> (v: Vec<char>)
    ensures
        v@ == s@,
{
    let mut v: Vec<char> = Vec::new();
    let mut i: usize = 0;
    while i < s.len()
        invariant
            0 <= i <= s@.len(),
            v@ == s@.take(i as int),
        decreases s@.len() - i,
    {
        v.push(s[i]);
        i = i + 1;
        assert(v@ =~= s@.take(i as int));
    }
    assert(s@.take(s@.len() as int) =~= s@);
    v
}


/// A tag directive line: `tag::name[]` opens a region, `end::name[]` closes
/// it.
#[derive(Debug, PartialEq, Eq)]
pub enum TagDirective {
    Start(String),
    End(String),
}

pub enum TagDirectiveV {
    Start(Seq<char>),
    End(Seq<char>),
}

impl View for TagDirective {
    type V = TagDirectiveV;

    open spec fn view(&self) -> TagDirectiveV {
        match self {
            TagDirective::Start(t) => TagDirectiveV::Start(t@),
            TagDirective::End(t) => TagDirectiveV::End(t@),
        }
    }
}

/// The pattern a tag directive line matches: `tag::` or `end::`, a name of
/// non-space chars, `[]`, then a space, a line end, or `\r` at the end.
pub open spec fn tag_directive_pattern() -> Seq<char> {
    r"\b(tag|end)::(\S+)\[\](?: |$|\r$)"@
}

/// The directive a line holds, if any.
pub open spec fn tag_directive_of(line: Seq<u8>) -> Option<TagDirectiveV> {
    if !crate::rx::bytes_regex_compiles(tag_directive_pattern()) {
        None
    } else {
        match crate::rx::bytes_regex_captures(tag_directive_pattern(), line) {
            None => None,
            Some(gs) => if gs.len() > 2 && gs[1] is Some && gs[2] is Some && vstd::utf8::valid_utf8(
                gs[2]->0,
            ) {
                let name = vstd::utf8::decode_utf8(gs[2]->0);
                if gs[1]->0 == seq![101u8, 110u8, 100u8] {
                    Some(TagDirectiveV::End(name))
                } else {
                    Some(TagDirectiveV::Start(name))
                }
            } else {
                None
            },
        }
    }
}

/// Recognizes a tag directive line.
pub fn tag_directive(line: &[u8]) -> (r: Option<TagDirective>)
    ensures
        match tag_directive_of(line@) {
            Some(d) => r matches Some(x) && x@ == d,
            None => r is None,
        },
{
    let pattern = r"\b(tag|end)::(\S+)\[\](?: |$|\r$)";
    if !crate::rx::bytes_compiles(pattern) {
        return None;
    }
    let gs = match crate::rx::bytes_captures(pattern, line) {
        Some(gs) => gs,
        None => {
            return None;
        },
    };
    if gs.len() <= 2 {
        return None;
    }
    let kw = match &gs[1] {
        Some(k) => k,
        None => {
            return None;
        },
    };
    let name_bytes = match &gs[2] {
        Some(n) => n,
        None => {
            return None;
        },
    };
    let name = match crate::encoding::utf8_string(name_bytes.as_slice()) {
        Some(n) => n,
        None => {
            return None;
        },
    };
    let end_kw: Vec<u8> = vec![101u8, 110u8, 100u8];
    if crate::text::bytes_range_eq(kw.as_slice(), 0, kw.len(), end_kw.as_slice()) {
        proof {
            assert(kw@.subrange(0, kw@.len() as int) =~= kw@);
            assert(end_kw@ =~= seq![101u8, 110u8, 100u8]);
        }
        Some(TagDirective::End(name))
    } else {
        proof {
            assert(kw@.subrange(0, kw@.len() as int) =~= kw@);
            assert(end_kw@ =~= seq![101u8, 110u8, 100u8]);
        }
        Some(TagDirective::Start(name))
    }
}

/// The tags a selection expects to find: those of `foo`, `foo;!*`,
/// `foo;!bar` (its `foo`) and `!*;foo` terms.
pub open spec fn expects(s: SpecV, t: Seq<char>) -> bool {
    match s {
        SpecV::Tag(x) => x == t,
        SpecV::TagExclAllNested(x) => x == t,
        SpecV::TagExclNested(x, _) => x == t,
        SpecV::AllUntaggedIncl(x) => x == t,
        _ => false,
    }
}

pub open spec fn expected_tag_set(specs: Seq<SpecV>) -> Set<Seq<char>> {
    Set::new(|t: Seq<char>| exists|i: int| 0 <= i < specs.len() && expects(#[trigger] specs[i], t))
}

pub open spec fn strings_view(v: Seq<String>) -> Seq<Seq<char>> {
    v.map_values(|s: String| s@)
}

/// Whether the string list holds `t`.
pub fn strings_contain(v: &Vec<String>, t: &str) -> (r: bool)
    ensures
        r == strings_view(v@).contains(t@),
{
    let mut i: usize = 0;
    while i < v.len()
        invariant
            0 <= i <= v@.len(),
            forall|j: int| 0 <= j < i ==> (#[trigger] v@[j])@ != t@,
        decreases v@.len() - i,
    {
        if crate::text::str_eq(v[i].as_str(), t) {
            assert(strings_view(v@)[i as int] == t@);
            return true;
        }
        i = i + 1;
    }
    assert forall|j: int| 0 <= j < strings_view(v@).len() implies strings_view(v@)[j] != t@ by {
        assert(strings_view(v@)[j] == v@[j]@);
    }
    false
}

/// `v` without `t` (all copies).
pub fn strings_remove(v: &mut Vec<String>, t: &str)
    ensures
        strings_view(final(v)@).to_set() == strings_view(old(v)@).to_set().remove(t@),
        strings_view(old(v)@).no_duplicates() ==> strings_view(final(v)@).no_duplicates(),
{
    let mut out: Vec<String> = Vec::new();
    let mut i: usize = 0;
    while i < v.len()
        invariant
            0 <= i <= v@.len(),
            v@ == old(v)@,
            strings_view(out@).to_set() == strings_view(v@.take(i as int)).to_set().remove(t@),
            strings_view(v@).no_duplicates() ==> strings_view(out@).no_duplicates(),
            forall|k: int| 0 <= k < out@.len() ==> strings_view(v@.take(i as int)).contains(#[trigger] strings_view(out@)[k]),
        decreases v@.len() - i,
    {
        let ghost before = out@;
        if !crate::text::str_eq(v[i].as_str(), t) {
            out.push(v[i].clone());
        }
        proof {
            let sv = strings_view(v@.take(i + 1));
            assert(sv =~= strings_view(v@.take(i as int)).push(v@[i as int]@));
            assert(strings_view(out@) =~= if v@[i as int]@ != t@ { strings_view(before).push(v@[i as int]@) } else { strings_view(before) });
            strings_view(before).lemma_push_to_set_commute(v@[i as int]@);
            strings_view(v@.take(i as int)).lemma_push_to_set_commute(v@[i as int]@);
            assert(strings_view(out@).to_set() =~= sv.to_set().remove(t@));
            if strings_view(v@).no_duplicates() && v@[i as int]@ != t@ {
                assert forall|a: int, b: int| 0 <= a < b < strings_view(out@).len() implies strings_view(out@)[a] != strings_view(out@)[b] by {
                    if b == strings_view(out@).len() - 1 {
                        let x = strings_view(out@)[a];
                        assert(strings_view(v@.take(i as int)).contains(x));
                        let j = choose|j: int| 0 <= j < i && strings_view(v@.take(i as int))[j] == x;
                        assert(strings_view(v@)[j] == x);
                        assert(strings_view(v@)[i as int] == v@[i as int]@);
                    }
                }
            }
            assert forall|k: int| 0 <= k < out@.len() implies sv.contains(#[trigger] strings_view(out@)[k]) by {
                if k < before.len() {
                    assert(strings_view(out@)[k] == strings_view(before)[k]);
                    let x = strings_view(before)[k];
                    let j = choose|j: int| 0 <= j < strings_view(v@.take(i as int)).len() && strings_view(v@.take(i as int))[j] == x;
                    assert(sv[j] == x);
                } else {
                    assert(sv[i as int] == v@[i as int]@);
                }
            }
        }
        i = i + 1;
    }
    assert(v@.take(v@.len() as int) =~= v@);
    *v = out;
}


/// A problem found while selecting tagged lines.
#[derive(Debug, PartialEq, Eq)]
pub enum TagDiagnostic {
    /// An end directive for an expected tag while no tag is open.
    UnexpectedEndTag { tag: String, line_idx: usize },
    /// An end directive for an expected tag that is not the innermost open one.
    MismatchedEndTag { expected: String, found: String, line_idx: usize },
    /// An expected tag still open at the end of the file.
    UnclosedTag { tag: String, line_idx: usize },
    /// Expected tags that no start directive opened.
    TagsNotFound { tags: Vec<String> },
}

pub enum TagDiagnosticV {
    UnexpectedEndTag { tag: Seq<char>, line_idx: usize },
    MismatchedEndTag { expected: Seq<char>, found: Seq<char>, line_idx: usize },
    UnclosedTag { tag: Seq<char>, line_idx: usize },
    TagsNotFound { tags: Seq<Seq<char>> },
}

impl View for TagDiagnostic {
    type V = TagDiagnosticV;

    open spec fn view(&self) -> TagDiagnosticV {
        match self {
            TagDiagnostic::UnexpectedEndTag { tag, line_idx } => TagDiagnosticV::UnexpectedEndTag {
                tag: tag@,
                line_idx: *line_idx,
            },
            TagDiagnostic::MismatchedEndTag { expected, found, line_idx } => TagDiagnosticV::MismatchedEndTag {
                expected: expected@,
                found: found@,
                line_idx: *line_idx,
            },
            TagDiagnostic::UnclosedTag { tag, line_idx } => TagDiagnosticV::UnclosedTag {
                tag: tag@,
                line_idx: *line_idx,
            },
            TagDiagnostic::TagsNotFound { tags } => TagDiagnosticV::TagsNotFound { tags: strings_view(tags@) },
        }
    }
}

pub open spec fn diags_view(d: Seq<TagDiagnostic>) -> Seq<TagDiagnosticV> {
    d.map_values(|x: TagDiagnostic| x@)
}

/// The state of a tag selection after some lines.
pub struct SelState {
    pub dest: Seq<u8>,
    pub stack: Seq<(Seq<char>, usize)>,
    pub remaining: Set<Seq<char>>,
    pub pushed: bool,
    pub diags: Seq<TagDiagnosticV>,
}

/// Whether a non-directive line inside the open tags `st` is kept.
pub open spec fn line_selected(specs: Seq<SpecV>, st: Seq<(Seq<char>, usize)>) -> bool {
    match strategy_of(specs) {
        Strategy::All => forall|i: int| 0 <= i < specs.len() ==> satisfies(#[trigger] specs[i], st),
        Strategy::Any => exists|i: int| 0 <= i < specs.len() && satisfies(#[trigger] specs[i], st),
    }
}

/// The state after line `idx` (`line`) of the included file: directive
/// lines become marker lines and open or close tags; other lines are kept
/// when the selection selects them where they stand.
pub open spec fn sel_step(specs: Seq<SpecV>, st: SelState, line: Seq<u8>, idx: usize) -> SelState {
    let marked = st.dest + crate::bytes::marker() + seq![crate::lines::newline()];
    match tag_directive_of(line) {
        Some(TagDirectiveV::Start(t)) => SelState {
            dest: marked,
            stack: st.stack.push((t, idx)),
            remaining: st.remaining.remove(t),
            ..st
        },
        Some(TagDirectiveV::End(t)) => if stack_last_is(st.stack, t) {
            SelState { dest: marked, stack: st.stack.drop_last(), ..st }
        } else if expected_tag_set(specs).contains(t) {
            SelState {
                dest: marked,
                diags: st.diags.push(
                    if st.stack.len() == 0 {
                        TagDiagnosticV::UnexpectedEndTag { tag: t, line_idx: idx }
                    } else {
                        TagDiagnosticV::MismatchedEndTag { expected: st.stack.last().0, found: t, line_idx: idx }
                    },
                ),
                ..st
            }
        } else {
            SelState { dest: marked, ..st }
        },
        None => if line_selected(specs, st.stack) {
            SelState {
                dest: st.dest + line + seq![crate::lines::newline()],
                pushed: st.pushed || line.len() > 0,
                ..st
            }
        } else {
            st
        },
    }
}

/// The state after all of `lines`.
pub open spec fn sel_run(specs: Seq<SpecV>, lines: Seq<Seq<u8>>) -> SelState
    decreases lines.len(),
{
    if lines.len() == 0 {
        SelState {
            dest: Seq::empty(),
            stack: Seq::empty(),
            remaining: expected_tag_set(specs),
            pushed: false,
            diags: Seq::empty(),
        }
    } else {
        sel_step(specs, sel_run(specs, lines.drop_last()), lines.last(), (lines.len() - 1) as usize)
    }
}

/// The included file's bytes after tag selection, and the problems found:
/// an expected tag left open, then expected tags never opened. When no kept
/// line has content, nothing is kept.
pub open spec fn tagged_selection(specs: Seq<SpecV>, src: Seq<u8>) -> (Seq<u8>, Seq<TagDiagnosticV>) {
    let st = sel_run(specs, crate::lines::split_lines(src));
    let d1 = if st.stack.len() > 0 && expected_tag_set(specs).contains(st.stack.last().0) {
        st.diags.push(TagDiagnosticV::UnclosedTag { tag: st.stack.last().0, line_idx: st.stack.last().1 })
    } else {
        st.diags
    };
    let d2 = if st.remaining != Set::<Seq<char>>::empty() {
        d1.push(TagDiagnosticV::TagsNotFound { tags: crate::text_order::sorted_set(st.remaining) })
    } else {
        d1
    };
    (if st.pushed { st.dest } else { Seq::empty() }, d2)
}

fn expected_tag_of(s: &Spec) -> (r: Option<&String>)
    ensures
        match r {
            Some(t) => expects(s@, t@) && (forall|u: Seq<char>| expects(s@, u) ==> u == t@),
            None => forall|u: Seq<char>| !expects(s@, u),
        },
{
    match s {
        Spec::Tag(t) => Some(t),
        Spec::TagExclAllNested(t) => Some(t),
        Spec::TagExclNested(t, _) => Some(t),
        Spec::AllUntaggedIncl(t) => Some(t),
        _ => None,
    }
}

impl TagSpecs {
    /// The tags the selection expects to find, each once.
    pub fn expected_tags(&self) -> (r: Vec<String>)
        ensures
            strings_view(r@).to_set() == expected_tag_set(self@),
            strings_view(r@).no_duplicates(),
    {
        let mut out: Vec<String> = Vec::new();
        let mut i: usize = 0;
        while i < self.0.len()
            invariant
                0 <= i <= self.0@.len(),
                strings_view(out@).to_set() == expected_tag_set(self@.take(i as int)),
                strings_view(out@).no_duplicates(),
            decreases self.0@.len() - i,
        {
            let ghost before = out@;
            let ghost t_next = self@.take(i + 1);
            assert(t_next =~= self@.take(i as int).push(self@[i as int]));
            match expected_tag_of(&self.0[i]) {
                Some(t) => {
                    if !strings_contain(&out, t.as_str()) {
                        out.push(t.clone());
                        proof {
                            strings_view(before).lemma_push_to_set_commute(t@);
                            assert(strings_view(out@) =~= strings_view(before).push(t@));
                        }
                    }
                    proof {
                        assert(strings_view(out@).to_set() =~= expected_tag_set(t_next)) by {
                            assert forall|u: Seq<char>| expected_tag_set(t_next).contains(u)
                                implies strings_view(out@).to_set().contains(u) by {
                                let j = choose|j: int| 0 <= j < t_next.len() && expects(#[trigger] t_next[j], u);
                                if j < i {
                                    assert(self@.take(i as int)[j] == t_next[j]);
                                    assert(expected_tag_set(self@.take(i as int)).contains(u));
                                }
                            }
                            assert forall|u: Seq<char>| strings_view(out@).to_set().contains(u)
                                implies expected_tag_set(t_next).contains(u) by {
                                if u != t@ {
                                    assert(strings_view(before).to_set().contains(u));
                                    let j = choose|j: int| 0 <= j < self@.take(i as int).len() && expects(#[trigger] self@.take(i as int)[j], u);
                                    assert(t_next[j] == self@.take(i as int)[j]);
                                } else {
                                    assert(expects(t_next[i as int], u));
                                }
                            }
                        }
                    }
                },
                None => {
                    proof {
                        assert(expected_tag_set(self@.take(i as int)) =~= expected_tag_set(t_next)) by {
                            assert forall|u: Seq<char>| expected_tag_set(t_next).contains(u)
                                implies expected_tag_set(self@.take(i as int)).contains(u) by {
                                let j = choose|j: int| 0 <= j < t_next.len() && expects(#[trigger] t_next[j], u);
                                assert(self@.take(i as int)[j] == t_next[j]);
                            }
                            assert forall|u: Seq<char>| expected_tag_set(self@.take(i as int)).contains(u)
                                implies expected_tag_set(t_next).contains(u) by {
                                let j = choose|j: int| 0 <= j < self@.take(i as int).len() && expects(#[trigger] self@.take(i as int)[j], u);
                                assert(t_next[j] == self@.take(i as int)[j]);
                            }
                        }
                    }
                },
            }
            i = i + 1;
        }
        assert(self@.take(self.0@.len() as int) =~= self@);
        out
    }
}


proof fn lemma_diags_push(d: Seq<TagDiagnostic>, x: TagDiagnostic)
    ensures
        diags_view(d.push(x)) == diags_view(d).push(x@),
{
    assert(diags_view(d.push(x)) =~= diags_view(d).push(x@));
}

impl TagSpecs {
    /// Whether a non-directive line inside the open tags `stack` is kept.
    pub fn selects(&self, stack: &TagStack) -> (r: bool)
        ensures
            r == line_selected(self@, stack@),
    {
        let strategy = self.strategy();
        let mut i: usize = 0;
        match strategy {
            Strategy::All => {
                while i < self.0.len()
                    invariant
                        0 <= i <= self.0@.len(),
                        strategy == strategy_of(self@),
                        strategy == Strategy::All,
                        forall|j: int| 0 <= j < i ==> satisfies(#[trigger] self@[j], stack@),
                    decreases self.0@.len() - i,
                {
                    assert(self@[i as int] == self.0@[i as int]@);
                    if !self.0[i].satisfied_by(stack) {
                        return false;
                    }
                    i = i + 1;
                }
                true
            },
            Strategy::Any => {
                while i < self.0.len()
                    invariant
                        0 <= i <= self.0@.len(),
                        strategy == strategy_of(self@),
                        strategy == Strategy::Any,
                        forall|j: int| 0 <= j < i ==> !satisfies(#[trigger] self@[j], stack@),
                    decreases self.0@.len() - i,
                {
                    assert(self@[i as int] == self.0@[i as int]@);
                    if self.0[i].satisfied_by(stack) {
                        return true;
                    }
                    i = i + 1;
                }
                false
            },
        }
    }
}

/// Keeps the lines of an included file that the selection selects, turning
/// tag directive lines into marker lines; returns the problems found.
#[verifier::rlimit(50)]
pub fn select_tagged(selection: &TagSpecs, src: &mut Vec<u8>) -> (diags: Vec<TagDiagnostic>)
    ensures
        final(src)@ == tagged_selection(selection@, old(src)@).0,
        diags_view(diags@) == tagged_selection(selection@, old(src)@).1,
{
    let ghost specs = selection@;
    let bounds = line_bounds(src.as_slice());
    let ghost ls = crate::lines::split_lines(src@);
    let n = bounds.len();
    let expected = selection.expected_tags();
    let mut remaining = selection.expected_tags();
    let marker = crate::bytes::marker_bytes();
    let mut dest: Vec<u8> = Vec::new();
    let mut stack = TagStack::new();
    let mut pushed = false;
    let mut diags: Vec<TagDiagnostic> = Vec::new();
    let mut k: usize = 0;
    proof {
        assert(ls.take(0) =~= Seq::<Seq<u8>>::empty());
        assert(diags_view(diags@) =~= Seq::<TagDiagnosticV>::empty());
    }
    while k < n
        invariant
            n == bounds@.len() == ls.len(),
            ls == crate::lines::split_lines(src@),
            selection@ == specs,
            marker@ == crate::bytes::marker(),
            strings_view(expected@).to_set() == expected_tag_set(specs),
            forall|j: int|
                0 <= j < bounds@.len() ==> (#[trigger] bounds@[j]).0 <= bounds@[j].1 <= src@.len()
                    && src@.subrange(bounds@[j].0 as int, bounds@[j].1 as int) == ls[j],
            0 <= k <= n,
            dest@ == sel_run(specs, ls.take(k as int)).dest,
            stack@ == sel_run(specs, ls.take(k as int)).stack,
            strings_view(remaining@).to_set() == sel_run(specs, ls.take(k as int)).remaining,
            strings_view(remaining@).no_duplicates(),
            pushed == sel_run(specs, ls.take(k as int)).pushed,
            diags_view(diags@) == sel_run(specs, ls.take(k as int)).diags,
        decreases n - k,
    {
        let (start, end) = bounds[k];
        let ghost st = sel_run(specs, ls.take(k as int));
        proof {
            assert(ls.take(k + 1).drop_last() =~= ls.take(k as int));
            assert(ls.take(k + 1).last() == ls[k as int]);
        }
        let line = &src.as_slice()[start..end];
        assert(line@ == ls[k as int]);
        match tag_directive(line) {
            Some(TagDirective::Start(tag)) => {
                crate::bytes::extend_all(&mut dest, marker.as_slice());
                dest.push(10u8);
                strings_remove(&mut remaining, tag.as_str());
                stack.push(tag, k);
            },
            Some(TagDirective::End(tag)) => {
                crate::bytes::extend_all(&mut dest, marker.as_slice());
                dest.push(10u8);
                if stack.last_is(tag.as_str()) {
                    stack.pop();
                } else if strings_contain(&expected, tag.as_str()) {
                    proof {
                        assert(strings_view(expected@).to_set().contains(tag@));
                    }
                    let d = match stack.last() {
                        None => TagDiagnostic::UnexpectedEndTag { tag, line_idx: k },
                        Some(last) => TagDiagnostic::MismatchedEndTag {
                            expected: last.0.clone(),
                            found: tag,
                            line_idx: k,
                        },
                    };
                    proof {
                        lemma_diags_push(diags@, d);
                    }
                    diags.push(d);
                } else {
                    proof {
                        assert(!strings_view(expected@).to_set().contains(tag@));
                    }
                }
            },
            None => {
                if selection.selects(&stack) {
                    if end > start {
                        pushed = true;
                    }
                    extend_range(&mut dest, src.as_slice(), start, end);
                    dest.push(10u8);
                }
            },
        }
        proof {
            assert(dest@ =~= sel_run(specs, ls.take(k + 1)).dest);
        }
        k = k + 1;
    }
    assert(ls.take(n as int) =~= ls);
    match stack.last() {
        Some(last) => {
            if strings_contain(&expected, last.0.as_str()) {
                let d = TagDiagnostic::UnclosedTag { tag: last.0.clone(), line_idx: last.1 };
                proof {
                    lemma_diags_push(diags@, d);
                }
                diags.push(d);
            }
        },
        None => {},
    }
    if remaining.len() > 0 {
        proof {
            assert(strings_view(remaining@).to_set().contains(strings_view(remaining@)[0]));
        }
        let sorted = crate::text_order::sort_texts(remaining);
        let d = TagDiagnostic::TagsNotFound { tags: sorted };
        proof {
            lemma_diags_push(diags@, d);
        }
        diags.push(d);
    } else {
        proof {
            assert(strings_view(remaining@).to_set() =~= Set::<Seq<char>>::empty());
        }
    }
    if !pushed {
        dest = Vec::new();
    }
    *src = dest;
    diags
}

} // verus!
