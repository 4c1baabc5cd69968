//! One entry of an attribute list, applied to the list: a positional or
//! named value, `options`/`role`/`id`, or `#id.role%option` shorthand.
//! Values are kept as the tokens the inline parser reads them from.
use vstd::prelude::*;

use crate::attr_list::{attr_ir_of, trim, trim_tokens, AttrIr, AttrIrV};
use crate::include_directive::{push_error, strings_of};
use crate::line::{byte_len, token_view, tokens_view, Line};
use crate::parser::{diag_view, Diagnostic, Parser};
use crate::table_spec::TokenView;
use crate::token::{SourceLocation, SourceString, Token, TokenKind};

verus! {

/// An attribute list: positional values and named values as tokens, in
/// the order written (an empty entry, and each named value, takes a
/// positional slot left `None`); the id; the roles and options.
#[derive(Debug)]
pub struct AttrList {
    pub positional: Vec<Option<Vec<Token>>>,
    pub named: Vec<(SourceString, Vec<Token>)>,
    pub id: Option<String>,
    pub roles: Vec<String>,
    pub options: Vec<String>,
}

/// An attribute list as the specifications see it.
pub struct AttrListV {
    pub positional: Seq<Option<Seq<TokenView>>>,
    pub named: Seq<(Seq<char>, SourceLocation, Seq<TokenView>)>,
    pub id: Option<Seq<char>>,
    pub roles: Seq<Seq<char>>,
    pub options: Seq<Seq<char>>,
}

pub open spec fn opt_tokens_view(o: Option<Vec<Token>>) -> Option<Seq<TokenView>> {
    match o {
        Some(v) => Some(tokens_view(v@)),
        None => None,
    }
}

pub open spec fn named_view(p: (SourceString, Vec<Token>)) -> (Seq<char>, SourceLocation, Seq<TokenView>) {
    (p.0.src@, p.0.loc, tokens_view(p.1@))
}

impl View for AttrList {
    type V = AttrListV;

    open spec fn view(&self) -> AttrListV {
        AttrListV {
            positional: self.positional@.map_values(|o: Option<Vec<Token>>| opt_tokens_view(o)),
            named: self.named@.map_values(|p: (SourceString, Vec<Token>)| named_view(p)),
            id: crate::text::opt_string_view(self.id),
            roles: strings_of(self.roles@),
            options: strings_of(self.options@),
        }
    }
}

impl AttrList {
    pub fn new() -> (l: AttrList)
        ensures
            l@ == empty_attr_list(),
    {
        let l = AttrList { positional: Vec::new(), named: Vec::new(), id: None, roles: Vec::new(), options: Vec::new() };
        assert(l@.positional =~= Seq::<Option<Seq<TokenView>>>::empty());
        assert(l@.named =~= Seq::<(Seq<char>, SourceLocation, Seq<TokenView>)>::empty());
        assert(l@.roles =~= Seq::<Seq<char>>::empty());
        assert(l@.options =~= Seq::<Seq<char>>::empty());
        l
    }
}

pub open spec fn only_shorthand_message() -> Seq<char> {
    "Formatted text only supports attribute shorthand: id, roles, & options"@
}

pub open spec fn more_than_one_id_message() -> Seq<char> {
    "More than one id attribute"@
}

/// The tokens' text, joined.
pub open spec fn lexemes(ts: Seq<TokenView>) -> Seq<char>
    decreases ts.len(),
{
    if ts.len() == 0 {
        Seq::empty()
    } else {
        lexemes(ts.drop_last()) + ts.last().2
    }
}

/// The text of each non-empty group.
pub open spec fn group_texts(g: Seq<Seq<TokenView>>) -> Seq<Seq<char>>
    decreases g.len(),
{
    if g.len() == 0 {
        Seq::empty()
    } else if g.last().len() == 0 {
        group_texts(g.drop_last())
    } else {
        group_texts(g.drop_last()).push(lexemes(g.last()))
    }
}

/// A `#`, `%` or `.` token of any length.
pub open spec fn is_symbol_kind(t: TokenView) -> bool {
    t.0 == TokenKind::Hash || t.0 == TokenKind::Percent || t.0 == TokenKind::Dots
}

/// The first `#`, `%` or `.` token at or after `i`; the length when none.
pub open spec fn first_symbol_from(ts: Seq<TokenView>, i: int) -> int
    decreases ts.len() - i,
{
    if i < 0 || i >= ts.len() {
        ts.len() as int
    } else if is_symbol_kind(ts[i]) {
        i
    } else {
        first_symbol_from(ts, i + 1)
    }
}

/// A token that ends a shorthand part: `#`, `%`, or a single `.`.
pub open spec fn is_shorthand_stop(t: TokenView) -> bool {
    t.0 == TokenKind::Hash || t.0 == TokenKind::Percent || (t.0 == TokenKind::Dots && byte_len(t.2) == 1)
}

/// The first shorthand stop at or after `i`; the length when none.
pub open spec fn next_stop(ts: Seq<TokenView>, i: int) -> int
    decreases ts.len() - i,
{
    if i < 0 || i >= ts.len() {
        ts.len() as int
    } else if is_shorthand_stop(ts[i]) {
        i
    } else {
        next_stop(ts, i + 1)
    }
}

/// The messages of located errors.
pub open spec fn messages(d: Seq<(Seq<char>, u32, u32)>) -> Seq<Seq<char>> {
    d.map_values(|x: (Seq<char>, u32, u32)| x.0)
}

/// An error pointing from the first to the last of the tokens `v`.
pub open spec fn span_error(message: Seq<char>, v: Seq<TokenView>) -> (Seq<char>, u32, u32) {
    (message, v[0].1.start, v.last().1.end)
}

/// The list with a role added.
pub open spec fn with_role(l: AttrListV, s: Seq<char>) -> AttrListV {
    AttrListV { roles: l.roles.push(s), ..l }
}

/// The list with an option added.
pub open spec fn with_option(l: AttrListV, s: Seq<char>) -> AttrListV {
    AttrListV { options: l.options.push(s), ..l }
}

/// An id set unless one is set already, which is reported at
/// `start..end`; the list and the errors this gives.
pub open spec fn with_id(l: AttrListV, s: Seq<char>, start: u32, end: u32) -> (AttrListV, Seq<(Seq<char>, u32, u32)>) {
    if l.id is Some {
        (l, seq![(more_than_one_id_message(), start, end)])
    } else {
        (AttrListV { id: Some(s), ..l }, Seq::empty())
    }
}

/// Shorthand from the symbol at `i` on: each `.` adds a role, `#` the id
/// (a second one is reported at its `#`), `%` an option, named by the text
/// up to the next symbol. Gives the list and the errors, in order.
pub open spec fn shorthand_from(ts: Seq<TokenView>, i: int, l: AttrListV) -> (AttrListV, Seq<(Seq<char>, u32, u32)>)
    decreases ts.len() - i,
{
    if i < 0 || i >= ts.len() {
        (l, Seq::empty())
    } else {
        let j = next_stop(ts, i + 1);
        let s = lexemes(ts.subrange(i + 1, j));
        let step = if ts[i].0 == TokenKind::Dots {
            (with_role(l, s), Seq::empty())
        } else if ts[i].0 == TokenKind::Hash {
            with_id(l, s, ts[i].1.start, ts[i].1.end)
        } else {
            (with_option(l, s), Seq::empty())
        };
        if j <= i || j > ts.len() {
            step
        } else {
            let r = shorthand_from(ts, j, step.0);
            (r.0, step.1 + r.1)
        }
    }
}

/// What one entry (its tokens between commas) does to the list, and the
/// errors it reports, in order. In formatted text only shorthand is
/// taken; anything else is reported over its tokens. A positional value
/// followed by shorthand is split at its first `#`, `%` or `.`, and the
/// rest read as an entry of its own.
pub open spec fn attr_entry(ts: Seq<TokenView>, formatted: bool, l: AttrListV) -> (
    AttrListV,
    Seq<(Seq<char>, u32, u32)>,
)
    decreases ts.len(),
{
    let t = trim_tokens(ts);
    if t.len() == 0 {
        (AttrListV { positional: l.positional.push(None), ..l }, Seq::empty())
    } else {
        match attr_ir_of(t) {
            AttrIrV::Shorthand(v) => shorthand_from(v, 0, l),
            AttrIrV::Positional(u, flag) => if formatted {
                (l, seq![span_error(only_shorthand_message(), u)])
            } else if flag {
                let k = first_symbol_from(u, 0);
                if 0 < k < u.len() && u.len() <= ts.len() {
                    attr_entry(u.skip(k), formatted, AttrListV { positional: l.positional.push(Some(u.take(k))), ..l })
                } else {
                    (l, Seq::empty())
                }
            } else {
                (AttrListV { positional: l.positional.push(Some(u)), ..l }, Seq::empty())
            },
            AttrIrV::Named(n, loc, v) => if formatted {
                (l, seq![(only_shorthand_message(), loc.start, v.last().1.end)])
            } else {
                (AttrListV { named: l.named.push((n, loc, v)), positional: l.positional.push(None), ..l }, Seq::empty())
            },
            AttrIrV::Options(g) => if formatted {
                (l, seq![(only_shorthand_message(), g[0][0].1.start, g.last().last().1.end)])
            } else {
                (AttrListV { options: l.options + group_texts(g), ..l }, Seq::empty())
            },
            AttrIrV::Roles(g) => if formatted {
                (l, seq![(only_shorthand_message(), g[0][0].1.start, g.last().last().1.end)])
            } else {
                (AttrListV { roles: l.roles + group_texts(g), ..l }, Seq::empty())
            },
            AttrIrV::Id(v) => if formatted {
                (l, seq![span_error(only_shorthand_message(), v)])
            } else {
                with_id(l, lexemes(v), v[0].1.start, v.last().1.end)
            },
        }
    }
}

/// The entries on which reading ends and every reported error has tokens
/// to point at: a positional value followed by shorthand must have a value
/// part before the first symbol (else the split never progresses), and an
/// entry reported over its tokens must have some.
pub open spec fn attr_entry_ok(ts: Seq<TokenView>, formatted: bool, l: AttrListV) -> bool
    decreases ts.len(),
{
    let t = trim_tokens(ts);
    t.len() > 0 ==> match attr_ir_of(t) {
        AttrIrV::Positional(u, flag) => if formatted {
            u.len() > 0
        } else if flag {
            let k = first_symbol_from(u, 0);
            0 < k < u.len() && u.len() <= ts.len() && attr_entry_ok(
                u.skip(k),
                formatted,
                AttrListV { positional: l.positional.push(Some(u.take(k))), ..l },
            )
        } else {
            true
        },
        AttrIrV::Named(_, _, v) => formatted ==> v.len() > 0,
        AttrIrV::Options(g) => formatted ==> g.len() > 0 && g[0].len() > 0 && g.last().len() > 0,
        AttrIrV::Roles(g) => formatted ==> g.len() > 0 && g[0].len() > 0 && g.last().len() > 0,
        AttrIrV::Id(v) => v.len() > 0 || (!formatted && l.id is None),
        AttrIrV::Shorthand(_) => true,
    }
}

/// How a step that reports errors `o.1` and leaves the list `o.0` ends:
/// in strict mode the first error is returned (and nothing is recorded),
/// otherwise every error is recorded and the step succeeds.
pub open spec fn reported<T>(
    strict: bool,
    o: (AttrListV, Seq<(Seq<char>, u32, u32)>),
    r: Result<T, Diagnostic>,
    list: AttrListV,
    errs0: Seq<Seq<char>>,
    errs1: Seq<Seq<char>>,
) -> bool {
    if strict {
        &&& (r is Err) == (o.1.len() > 0)
        &&& (r matches Err(d) ==> diag_view(d) == o.1[0])
        &&& (r is Ok ==> list == o.0)
        &&& errs1 == errs0
    } else {
        &&& r is Ok
        &&& list == o.0
        &&& errs1 == errs0 + messages(o.1)
    }
}

/// `b` is `a` with at most its errors changed.
pub open spec fn only_errors_changed(a: Parser, b: Parser) -> bool {
    &&& b.attrs == a.attrs
    &&& b.leveloffset == a.leveloffset
    &&& b.anchor_ids == a.anchor_ids
    &&& b.ifdef_stack == a.ifdef_stack
    &&& b.max_include_depth == a.max_include_depth
    &&& b.toc == a.toc
    &&& b.authors == a.authors
    &&& b.included_files == a.included_files
    &&& b.attr_defs == a.attr_defs
    &&& b.strict == a.strict
}

proof fn lemma_next_stop(ts: Seq<TokenView>, i: int)
    requires
        0 <= i <= ts.len(),
    ensures
        i <= next_stop(ts, i) <= ts.len(),
        next_stop(ts, i) < ts.len() ==> is_shorthand_stop(ts[next_stop(ts, i)]),
    decreases ts.len() - i,
{
    if i < ts.len() && !is_shorthand_stop(ts[i]) {
        lemma_next_stop(ts, i + 1);
    }
}

proof fn lemma_first_symbol(ts: Seq<TokenView>, i: int)
    requires
        0 <= i <= ts.len(),
    ensures
        i <= first_symbol_from(ts, i) <= ts.len(),
        forall|k: int| i <= k < first_symbol_from(ts, i) ==> !is_symbol_kind(#[trigger] ts[k]),
    decreases ts.len() - i,
{
    if i < ts.len() && !is_symbol_kind(ts[i]) {
        lemma_first_symbol(ts, i + 1);
    }
}

proof fn lemma_shorthand_only_first(ts: Seq<TokenView>, i: int)
    requires
        0 < i,
    ensures
        crate::attr_list::classify_from(ts, i).0 != Some(crate::attr_list::IrKind::Shorthand),
    decreases ts.len() - i,
{
    if i < ts.len() && crate::attr_list::classify_at(ts, i) is None {
        lemma_shorthand_only_first(ts, i + 1);
    }
}

fn is_stop_token(t: &Token) -> (r: bool)
    ensures
        r == is_shorthand_stop(token_view(*t)),
{
    t.kind == TokenKind::Hash || t.kind == TokenKind::Percent || (t.kind == TokenKind::Dots && t.len() == 1)
}

/// The tokens' text from `from` to `to`, joined.
fn lexemes_of(tokens: &Vec<Token>, from: usize, to: usize) -> (r: String)
    requires
        from <= to <= tokens@.len(),
    ensures
        r@ == lexemes(tokens_view(tokens@).subrange(from as int, to as int)),
{
    let ghost tv = tokens_view(tokens@);
    let mut acc: Vec<char> = Vec::new();
    let mut i = from;
    while i < to
        invariant
            from <= i <= to <= tokens@.len(),
            tv == tokens_view(tokens@),
            acc@ == lexemes(tv.subrange(from as int, i as int)),
        decreases to - i,
    {
        let cs = tokens[i].chars();
        crate::attr_list::append_chars(&mut acc, &cs);
        proof {
            assert(tv.subrange(from as int, i + 1).drop_last() =~= tv.subrange(from as int, i as int));
            assert(tv.subrange(from as int, i + 1).last() == tv[i as int]);
        }
        i = i + 1;
    }
    crate::text::string_of(acc.as_slice())
}

pub(crate) fn push_string(v: &mut Vec<String>, s: String)
    ensures
        strings_of(final(v)@) == strings_of(old(v)@).push(s@),
{
    let ghost before = v@;
    v.push(s);
    assert(strings_of(v@) =~= strings_of(before).push(s@));
}

impl Parser {
    /// Adds the text of each non-empty group to `sink`.
    fn push_attr_groups(&self, groups: Vec<Vec<Token>>, sink: &mut Vec<String>)
        ensures
            strings_of(final(sink)@) == strings_of(old(sink)@) + group_texts(crate::attr_list::groups_view(groups@)),
    {
        let ghost g = crate::attr_list::groups_view(groups@);
        let mut i: usize = 0;
        while i < groups.len()
            invariant
                0 <= i <= groups@.len(),
                g == crate::attr_list::groups_view(groups@),
                strings_of(sink@) == strings_of(old(sink)@) + group_texts(g.take(i as int)),
            decreases groups@.len() - i,
        {
            let group = &groups[i];
            proof {
                assert(g.take(i + 1).drop_last() =~= g.take(i as int));
                assert(g.take(i + 1).last() == g[i as int]);
                assert(g[i as int] == tokens_view(group@));
            }
            if group.len() > 0 {
                let s = lexemes_of(group, 0, group.len());
                assert(tokens_view(group@).subrange(0, group@.len() as int) =~= tokens_view(group@));
                let ghost before = strings_of(sink@);
                push_string(sink, s);
                assert(strings_of(sink@) =~= strings_of(old(sink)@) + group_texts(g.take(i + 1)));
            }
            i = i + 1;
        }
        assert(g.take(i as int) =~= g);
    }

    /// Reports an error at `start..end`: returned in strict mode,
    /// recorded otherwise.
    pub(crate) fn report(&mut self, message: String, start: u32, end: u32) -> (r: Result<(), Diagnostic>)
        ensures
            old(self).strict ==> (r matches Err(d) && diag_view(d) == (message@, start, end) && final(self).errors
                == old(self).errors),
            !old(self).strict ==> r is Ok && strings_of(final(self).errors@) == strings_of(old(self).errors@).push(
                message@,
            ),
            only_errors_changed(*old(self), *final(self)),
    {
        if self.strict {
            Err(Diagnostic { message, start, end })
        } else {
            push_error(&mut self.errors, message);
            Ok(())
        }
    }

    /// Sets the id unless one is set, which is reported at `start..end`.
    fn set_id(&mut self, attr_list: &mut AttrList, s: String, start: u32, end: u32) -> (r: Result<(), Diagnostic>)
        ensures
            reported(
                old(self).strict,
                with_id(old(attr_list)@, s@, start, end),
                r,
                final(attr_list)@,
                strings_of(old(self).errors@),
                strings_of(final(self).errors@),
            ),
            only_errors_changed(*old(self), *final(self)),
    {
        if attr_list.id.is_some() {
            let r = self.report(String::from_str("More than one id attribute"), start, end);
            assert(messages(seq![(more_than_one_id_message(), start, end)]) =~= seq![more_than_one_id_message()]);
            assert(strings_of(old(self).errors@).push(more_than_one_id_message()) =~= strings_of(old(self).errors@)
                + seq![more_than_one_id_message()]);
            r
        } else {
            attr_list.id = Some(s);
            assert(final(attr_list)@ =~= AttrListV { id: Some(s@), ..old(attr_list)@ });
            assert(messages(Seq::<(Seq<char>, u32, u32)>::empty()) =~= Seq::<Seq<char>>::empty());
            assert(strings_of(self.errors@) =~= strings_of(old(self).errors@) + Seq::<Seq<char>>::empty());
            Ok(())
        }
    }

    /// Reads `#id.role%option` shorthand.
    fn apply_shorthand(&mut self, tokens: &Vec<Token>, attr_list: &mut AttrList) -> (r: Result<(), Diagnostic>)
        requires
            tokens@.len() > 0 ==> is_shorthand_stop(tokens_view(tokens@)[0]),
        ensures
            reported(
                old(self).strict,
                shorthand_from(tokens_view(tokens@), 0, old(attr_list)@),
                r,
                final(attr_list)@,
                strings_of(old(self).errors@),
                strings_of(final(self).errors@),
            ),
            only_errors_changed(*old(self), *final(self)),
    {
        let ghost tv = tokens_view(tokens@);
        let ghost total = shorthand_from(tv, 0, old(attr_list)@);
        let ghost mut acc: Seq<(Seq<char>, u32, u32)> = Seq::empty();
        let n = tokens.len();
        let mut i: usize = 0;
        assert(total.1 =~= acc + total.1);
        assert(strings_of(self.errors@) =~= strings_of(old(self).errors@) + messages(acc));
        while i < n
            invariant
                n == tokens@.len(),
                0 <= i <= n,
                tv == tokens_view(tokens@),
                total == shorthand_from(tv, 0, old(attr_list)@),
                i < n ==> is_shorthand_stop(tv[i as int]),
                total.0 == shorthand_from(tv, i as int, attr_list@).0,
                total.1 == acc + shorthand_from(tv, i as int, attr_list@).1,
                self.strict == old(self).strict,
                self.strict ==> acc.len() == 0 && strings_of(self.errors@) == strings_of(old(self).errors@),
                !self.strict ==> strings_of(self.errors@) == strings_of(old(self).errors@) + messages(acc),
                only_errors_changed(*old(self), *self),
            decreases n - i,
        {
            let mut j = i + 1;
            while j < n && !is_stop_token(&tokens[j])
                invariant
                    n == tokens@.len(),
                    i < j <= n,
                    tv == tokens_view(tokens@),
                    next_stop(tv, i + 1) == next_stop(tv, j as int),
                decreases n - j,
            {
                j = j + 1;
            }
            proof {
                lemma_next_stop(tv, j as int);
            }
            let s = lexemes_of(tokens, i + 1, j);
            let kind = tokens[i].kind;
            let ghost l0 = attr_list@;
            let ghost e0 = strings_of(self.errors@);
            let ghost rest = shorthand_from(tv, j as int, if tv[i as int].0 == TokenKind::Dots {
                with_role(l0, s@)
            } else if tv[i as int].0 == TokenKind::Hash {
                with_id(l0, s@, tv[i as int].1.start, tv[i as int].1.end).0
            } else {
                with_option(l0, s@)
            });
            if kind == TokenKind::Dots {
                push_string(&mut attr_list.roles, s);
                proof {
                    assert(acc + (Seq::<(Seq<char>, u32, u32)>::empty() + rest.1) =~= acc + rest.1);
                }
            } else if kind == TokenKind::Hash {
                let start = tokens[i].loc.start;
                let end = tokens[i].loc.end;
                let ghost w = with_id(l0, s@, start, end);
                let r = self.set_id(attr_list, s, start, end);
                match r {
                    Err(d) => {
                        proof {
                            assert(total.1 == acc + (w.1 + rest.1));
                            assert((acc + (w.1 + rest.1))[0] == w.1[0]);
                        }
                        return Err(d);
                    },
                    Ok(()) => {},
                }
                proof {
                    assert(acc + (w.1 + rest.1) =~= (acc + w.1) + rest.1);
                    if !self.strict {
                        assert(messages(acc + w.1) =~= messages(acc) + messages(w.1));
                        assert(strings_of(old(self).errors@) + messages(acc) + messages(w.1) =~= strings_of(old(self).errors@) + messages(acc + w.1));
                    } else {
                        assert(w.1.len() == 0);
                        assert(acc + w.1 =~= acc);
                    }
                    acc = acc + w.1;
                }
            } else {
                push_string(&mut attr_list.options, s);
                proof {
                    assert(acc + (Seq::<(Seq<char>, u32, u32)>::empty() + rest.1) =~= acc + rest.1);
                }
            }
            i = j;
        }
        proof {
            assert(total.1 =~= acc);
        }
        Ok(())
    }
}


impl Parser {
    /// Applies one attribute list entry (its tokens between commas) to
    /// `attr_list`: an empty entry adds an empty positional value; a
    /// positional value, or one followed by shorthand (split at its first
    /// `#`, `%` or `.`, the rest read as an entry of its own); a named
    /// value, with an empty positional slot; `options`/`opts` and `role`
    /// values, split into entries; an `id`; or shorthand. In formatted text
    /// only shorthand is taken and anything else is reported. A second id
    /// is reported and ignored. In strict mode the first error is returned
    /// instead of being recorded.
    pub fn parse_attr(&mut self, tokens: Vec<Token>, formatted_text: bool, attr_list: &mut AttrList) -> (r: Result<
        (),
        Diagnostic,
    >)
        requires
            attr_entry_ok(tokens_view(tokens@), formatted_text, old(attr_list)@),
        ensures
            reported(
                old(self).strict,
                attr_entry(tokens_view(tokens@), formatted_text, old(attr_list)@),
                r,
                final(attr_list)@,
                strings_of(old(self).errors@),
                strings_of(final(self).errors@),
            ),
            only_errors_changed(*old(self), *final(self)),
        decreases tokens@.len(),
    {
        let ghost ts = tokens_view(tokens@);
        let t = trim(tokens);
        proof {
            assert(messages(Seq::<(Seq<char>, u32, u32)>::empty()) =~= Seq::<Seq<char>>::empty());
            assert(strings_of(self.errors@) =~= strings_of(self.errors@) + Seq::<Seq<char>>::empty());
        }
        if t.len() == 0 {
            let ghost before = attr_list@;
            attr_list.positional.push(None);
            assert(attr_list@.positional =~= before.positional.push(None));
            return Ok(());
        }
        let ghost tt = tokens_view(t@);
        let ir = self.attr_ir(t);
        let only = "Formatted text only supports attribute shorthand: id, roles, & options";
        match ir {
            AttrIr::Shorthand(v) => {
                proof {
                    if crate::attr_list::classify_at(tt, 0) is None {
                        lemma_shorthand_only_first(tt, 1);
                    }
                    assert(tokens_view(v@) == tt);
                }
                self.apply_shorthand(&v, attr_list)
            },
            AttrIr::Positional(u, flag) => {
                if formatted_text {
                    let ghost uv = tokens_view(u@);
                    assert(uv[0] == token_view(u@[0]) && uv.last() == token_view(u@[u@.len() - 1]));
                    let r = self.report(String::from_str(only), u[0].loc.start, u[u.len() - 1].loc.end);
                    assert(messages(seq![span_error(only_shorthand_message(), uv)]) =~= seq![only_shorthand_message()]);
                    r
                } else if flag {
                    let ghost uv = tokens_view(u@);
                    let mut k: usize = 0;
                    while k < u.len() && !(u[k].kind == TokenKind::Hash || u[k].kind == TokenKind::Percent
                        || u[k].kind == TokenKind::Dots)
                        invariant
                            0 <= k <= u@.len(),
                            uv == tokens_view(u@),
                            first_symbol_from(uv, 0) == first_symbol_from(uv, k as int),
                        decreases u@.len() - k,
                    {
                        k = k + 1;
                    }
                    assert(k == first_symbol_from(uv, 0));
                    let mut head = u;
                    let rest = head.split_off(k);
                    let ghost before = attr_list@;
                    attr_list.positional.push(Some(head));
                    proof {
                        assert(tokens_view(head@) =~= uv.take(k as int));
                        assert(tokens_view(rest@) =~= uv.skip(k as int));
                        assert(attr_list@.positional =~= before.positional.push(Some(uv.take(k as int))));
                        assert(attr_list@ == AttrListV { positional: before.positional.push(Some(uv.take(k as int))), ..before });
                    }
                    self.parse_attr(rest, formatted_text, attr_list)
                } else {
                    let ghost before = attr_list@;
                    let ghost uv = tokens_view(u@);
                    attr_list.positional.push(Some(u));
                    assert(attr_list@.positional =~= before.positional.push(Some(uv)));
                    Ok(())
                }
            },
            AttrIr::Named(name, v) => {
                if formatted_text {
                    let ghost vv = tokens_view(v@);
                    assert(vv.last() == token_view(v@[v@.len() - 1]));
                    let r = self.report(String::from_str(only), name.loc.start, v[v.len() - 1].loc.end);
                    assert(messages(seq![(only_shorthand_message(), name.loc.start, vv.last().1.end)]) =~= seq![
                        only_shorthand_message(),
                    ]);
                    r
                } else {
                    let ghost before = attr_list@;
                    let ghost p = named_view((name, v));
                    attr_list.named.push((name, v));
                    attr_list.positional.push(None);
                    assert(attr_list@.named =~= before.named.push(p));
                    assert(attr_list@.positional =~= before.positional.push(None));
                    Ok(())
                }
            },
            AttrIr::Options(g) => {
                if formatted_text {
                    proof {
                        let gv = crate::attr_list::groups_view(g@);
                        assert(gv[0] == tokens_view(g@[0]@) && gv.last() == tokens_view(g@[g@.len() - 1]@));
                        assert(messages(seq![(only_shorthand_message(), gv[0][0].1.start, gv.last().last().1.end)]) =~= seq![
                            only_shorthand_message(),
                        ]);
                    }
                    self.report_groups(&g)
                } else {
                    self.push_attr_groups(g, &mut attr_list.options);
                    Ok(())
                }
            },
            AttrIr::Roles(g) => {
                if formatted_text {
                    proof {
                        let gv = crate::attr_list::groups_view(g@);
                        assert(gv[0] == tokens_view(g@[0]@) && gv.last() == tokens_view(g@[g@.len() - 1]@));
                        assert(messages(seq![(only_shorthand_message(), gv[0][0].1.start, gv.last().last().1.end)]) =~= seq![
                            only_shorthand_message(),
                        ]);
                    }
                    self.report_groups(&g)
                } else {
                    self.push_attr_groups(g, &mut attr_list.roles);
                    Ok(())
                }
            },
            AttrIr::Id(v) => {
                let ghost vv = tokens_view(v@);
                if formatted_text {
                    assert(vv[0] == token_view(v@[0]) && vv.last() == token_view(v@[v@.len() - 1]));
                    let r = self.report(String::from_str(only), v[0].loc.start, v[v.len() - 1].loc.end);
                    assert(messages(seq![span_error(only_shorthand_message(), vv)]) =~= seq![only_shorthand_message()]);
                    r
                } else {
                    let s = lexemes_of(&v, 0, v.len());
                    assert(vv.subrange(0, v@.len() as int) =~= vv);
                    let (start, end) = if v.len() > 0 {
                        assert(vv[0] == token_view(v@[0]) && vv.last() == token_view(v@[v@.len() - 1]));
                        (v[0].loc.start, v[v.len() - 1].loc.end)
                    } else {
                        (0, 0)
                    };
                    self.set_id(attr_list, s, start, end)
                }
            },
        }
    }

    /// Reports a non-shorthand `options`/`role` entry in formatted text,
    /// from the first group's first token to the last group's last.
    fn report_groups(&mut self, g: &Vec<Vec<Token>>) -> (r: Result<(), Diagnostic>)
        requires
            g@.len() > 0,
            g@[0]@.len() > 0,
            g@[g@.len() - 1]@.len() > 0,
        ensures
            ({
                let gv = crate::attr_list::groups_view(g@);
                &&& old(self).strict ==> (r matches Err(d) && diag_view(d) == (only_shorthand_message(), gv[0][0].1.start,
                    gv.last().last().1.end) && final(self).errors == old(self).errors)
                &&& !old(self).strict ==> r is Ok && strings_of(final(self).errors@) == strings_of(old(self).errors@).push(
                    only_shorthand_message(),
                )
            }),
            only_errors_changed(*old(self), *final(self)),
    {
        let ghost gv = crate::attr_list::groups_view(g@);
        let first = &g[0];
        let last = &g[g.len() - 1];
        proof {
            assert(gv[0] == tokens_view(first@));
            assert(gv.last() == tokens_view(last@));
            assert(gv[0][0] == token_view(first@[0]));
            assert(gv.last().last() == token_view(last@[last@.len() - 1]));
        }
        let r = self.report(
            String::from_str("Formatted text only supports attribute shorthand: id, roles, & options"),
            first[0].loc.start,
            last[last.len() - 1].loc.end,
        );
        r
    }
}


/// Entries of `ds[k]` tokens each, from token `pos` on, each followed by a
/// comma.
pub open spec fn commas_at(ts: Seq<TokenView>, ds: Seq<usize>, pos: int) -> bool
    decreases ds.len(),
{
    ds.len() == 0 || (0 <= pos && pos + ds[0] < ts.len() && ts[pos + ds[0]].0 == TokenKind::Comma && commas_at(
        ts,
        ds.drop_first(),
        pos + ds[0] + 1,
    ))
}

/// Each of those entries, applied in turn from the list `l`, reads to its
/// end (see `attr_entry_ok`).
pub open spec fn entries_ok(ts: Seq<TokenView>, ds: Seq<usize>, pos: int, formatted: bool, l: AttrListV) -> bool
    decreases ds.len(),
{
    ds.len() == 0 || (attr_entry_ok(ts.subrange(pos, pos + ds[0]), formatted, l) && entries_ok(
        ts,
        ds.drop_first(),
        pos + ds[0] + 1,
        formatted,
        attr_entry(ts.subrange(pos, pos + ds[0]), formatted, l).0,
    ))
}

/// The list and the errors, in order, once those entries are applied in
/// turn.
pub open spec fn apply_entries(ts: Seq<TokenView>, ds: Seq<usize>, pos: int, formatted: bool, l: AttrListV) -> (
    AttrListV,
    Seq<(Seq<char>, u32, u32)>,
)
    decreases ds.len(),
{
    if ds.len() == 0 {
        (l, Seq::empty())
    } else {
        let r = attr_entry(ts.subrange(pos, pos + ds[0]), formatted, l);
        let rest = apply_entries(ts, ds.drop_first(), pos + ds[0] + 1, formatted, r.0);
        (rest.0, r.1 + rest.1)
    }
}

/// The token after those entries and their commas.
pub open spec fn after_entries(ds: Seq<usize>, pos: int) -> int
    decreases ds.len(),
{
    if ds.len() == 0 {
        pos
    } else {
        after_entries(ds.drop_first(), pos + ds[0] + 1)
    }
}

/// Where the last entry of a list inside a line ends: at the first token,
/// from `i` on, that is followed by `]` and is not a `\`.
pub open spec fn last_entry_end(ts: Seq<TokenView>, i: int) -> int
    decreases ts.len() - i,
{
    if i < 0 || i + 1 >= ts.len() {
        ts.len() as int
    } else if ts[i + 1].0 == TokenKind::CloseBracket && ts[i].0 != TokenKind::Backslash {
        i
    } else {
        last_entry_end(ts, i + 1)
    }
}

/// The last entry, which starts at token `p`, and where the closing
/// bracket after it stands: a list that is the whole line ends with its
/// last token.
pub open spec fn last_entry(ts: Seq<TokenView>, p: int, full_line: bool) -> (Seq<TokenView>, int) {
    let rest = ts.skip(p);
    if full_line {
        (rest.drop_last(), ts.len() - 1)
    } else if rest.len() > 0 && rest[0].0 == TokenKind::CloseBracket {
        (Seq::empty(), p)
    } else {
        let j = last_entry_end(rest, 0);
        (rest.take(j + 1), p + j + 1)
    }
}

pub open spec fn empty_attr_list() -> AttrListV {
    AttrListV {
        positional: Seq::empty(),
        named: Seq::empty(),
        id: None,
        roles: Seq::empty(),
        options: Seq::empty(),
    }
}

/// The lists that read to their closing bracket: one that is not empty
/// has its commas where the delimiter search puts them, a closing token,
/// and entries that read to their end.
pub open spec fn attr_list_ok(ts: Seq<TokenView>, full_line: bool, formatted: bool) -> bool {
    &&& ts.len() > 0
    &&& ts[0].0 != TokenKind::CloseBracket ==> {
        let ds = crate::attr_list::delim_scan(ts.take(ts.len() - 1)).delims;
        let p = after_entries(ds, 0);
        let rest = ts.skip(p);
        &&& commas_at(ts, ds, 0)
        &&& entries_ok(ts, ds, 0, formatted, empty_attr_list())
        &&& p < ts.len()
        &&& !full_line && rest[0].0 != TokenKind::CloseBracket ==> last_entry_end(rest, 0) + 1 < rest.len()
        &&& attr_entry_ok(
            last_entry(ts, p, full_line).0,
            formatted,
            apply_entries(ts, ds, 0, formatted, empty_attr_list()).0,
        )
    }
}

/// An attribute list read from its first token after `[`: the list, the
/// errors in order, and how many tokens it takes, the closing bracket
/// included. A list that opens with `]` is empty; otherwise its entries are
/// split at the commas outside quotes and applied in turn, the last one
/// running to the closing bracket.
pub open spec fn attr_list_of(ts: Seq<TokenView>, full_line: bool, formatted: bool) -> (
    AttrListV,
    Seq<(Seq<char>, u32, u32)>,
    int,
) {
    if ts[0].0 == TokenKind::CloseBracket {
        (empty_attr_list(), Seq::empty(), 1)
    } else {
        let ds = crate::attr_list::delim_scan(ts.take(ts.len() - 1)).delims;
        let p = after_entries(ds, 0);
        let r = apply_entries(ts, ds, 0, formatted, empty_attr_list());
        let le = last_entry(ts, p, full_line);
        let r2 = attr_entry(le.0, formatted, r.0);
        (r2.0, r.1 + r2.1, le.1 + 1)
    }
}

/// How reading a list ends: in strict mode the first error is returned
/// (and nothing recorded); otherwise every error is recorded and the list
/// is returned. On success the list's tokens are consumed.
pub open spec fn list_reported(
    strict: bool,
    o: (AttrListV, Seq<(Seq<char>, u32, u32)>, int),
    r: Result<AttrList, Diagnostic>,
    line0: Seq<TokenView>,
    line1: Seq<TokenView>,
    errs0: Seq<Seq<char>>,
    errs1: Seq<Seq<char>>,
) -> bool {
    &&& strict ==> (r is Err) == (o.1.len() > 0) && (r matches Err(d) ==> diag_view(d) == o.1[0]) && errs1 == errs0
    &&& !strict ==> r is Ok && errs1 == errs0 + messages(o.1)
    &&& r matches Ok(l) ==> l@ == o.0 && line1 == line0.skip(o.2)
}

proof fn lemma_last_entry_end(ts: Seq<TokenView>, i: int)
    requires
        0 <= i <= ts.len(),
    ensures
        i <= last_entry_end(ts, i) <= ts.len(),
    decreases ts.len() - i,
{
    if i + 1 < ts.len() && !(ts[i + 1].0 == TokenKind::CloseBracket && ts[i].0 != TokenKind::Backslash) {
        lemma_last_entry_end(ts, i + 1);
    }
}

/// Takes the next `n` tokens off the line.
fn take_tokens(line: &mut Line, n: usize) -> (r: Vec<Token>)
    requires
        n <= old(line)@.len(),
    ensures
        tokens_view(r@) == old(line)@.take(n as int),
        final(line)@ == old(line)@.skip(n as int),
{
    let mut out: Vec<Token> = Vec::new();
    let mut k: usize = 0;
    while k < n
        invariant
            0 <= k <= n <= old(line)@.len(),
            tokens_view(out@) == old(line)@.take(k as int),
            line@ == old(line)@.skip(k as int),
        decreases n - k,
    {
        let t = line.consume_current();
        match t {
            Some(t) => {
                let ghost before = out@;
                out.push(t);
                assert(tokens_view(out@) =~= tokens_view(before).push(token_view(t)));
                assert(old(line)@.take(k + 1) =~= old(line)@.take(k as int).push(old(line)@[k as int]));
                assert(old(line)@.skip(k as int).drop_first() =~= old(line)@.skip(k + 1));
            },
            None => {},
        }
        k = k + 1;
    }
    out
}

impl Parser {
    /// Reads an attribute list from the token after its `[` through its
    /// `]`: a list that is a whole line (`full_line`) ends with the line,
    /// one inside a line at the first `]` not escaped by `\`. Entries are
    /// split at commas outside quotes and applied with `parse_attr`. In
    /// strict mode the first error is returned.
    pub fn parse_attr_list(&mut self, line: &mut Line, full_line: bool, formatted_text: bool) -> (r: Result<
        AttrList,
        Diagnostic,
    >)
        requires
            attr_list_ok(old(line)@, full_line, formatted_text),
        ensures
            list_reported(
                old(self).strict,
                attr_list_of(old(line)@, full_line, formatted_text),
                r,
                old(line)@,
                final(line)@,
                strings_of(old(self).errors@),
                strings_of(final(self).errors@),
            ),
            only_errors_changed(*old(self), *final(self)),
    {
        let mut attrs = AttrList::new();
        let ghost ts = line@;
        let ghost errs0 = strings_of(self.errors@);
        proof {
            assert(messages(Seq::<(Seq<char>, u32, u32)>::empty()) =~= Seq::<Seq<char>>::empty());
            assert(errs0 =~= errs0 + Seq::<Seq<char>>::empty());
        }
        if line.current_is(TokenKind::CloseBracket) {
            line.consume_current();
            return Ok(attrs);
        }
        let delimiters = self.find_delimiters(line);
        let ghost ds = delimiters@;
        let ghost total = apply_entries(ts, ds, 0, formatted_text, empty_attr_list());
        let ghost mut acc: Seq<(Seq<char>, u32, u32)> = Seq::empty();
        assert(ds.skip(0) =~= ds);
        assert(total.1 =~= acc + total.1);
        let mut i: usize = 0;
        let ghost mut pos: int = 0;
        while i < delimiters.len()
            invariant
                0 <= i <= ds.len(),
                ds == delimiters@,
                0 <= pos <= ts.len(),
                line@ == ts.skip(pos),
                commas_at(ts, ds.skip(i as int), pos),
                entries_ok(ts, ds.skip(i as int), pos, formatted_text, attrs@),
                after_entries(ds, 0) == after_entries(ds.skip(i as int), pos),
                total == apply_entries(ts, ds, 0, formatted_text, empty_attr_list()),
                total.0 == apply_entries(ts, ds.skip(i as int), pos, formatted_text, attrs@).0,
                total.1 == acc + apply_entries(ts, ds.skip(i as int), pos, formatted_text, attrs@).1,
                self.strict == old(self).strict,
                self.strict ==> acc.len() == 0 && strings_of(self.errors@) == strings_of(old(self).errors@),
                !self.strict ==> strings_of(self.errors@) == errs0 + messages(acc),
                errs0 == strings_of(old(self).errors@),
                ts.len() > 0 && ts[0].0 != TokenKind::CloseBracket,
                ts == old(line)@,
                ds == crate::attr_list::delim_scan(ts.take(ts.len() - 1)).delims,
                only_errors_changed(*old(self), *self),
            decreases ds.len() - i,
        {
            let n = delimiters[i];
            proof {
                assert(ds.skip(i as int)[0] == ds[i as int]);
                assert(ds.skip(i as int).drop_first() =~= ds.skip(i + 1));
            }
            let tokens = take_tokens(line, n);
            let ghost sub = ts.subrange(pos, pos + n);
            proof {
                assert(tokens_view(tokens@) =~= sub);
            }
            let ghost o = attr_entry(sub, formatted_text, attrs@);
            let ghost rest = apply_entries(ts, ds.skip(i + 1), pos + n + 1, formatted_text, o.0);
            let r = self.parse_attr(tokens, formatted_text, &mut attrs);
            match r {
                Err(d) => {
                    proof {
                        assert(total.1 == acc + (o.1 + rest.1));
                        assert((acc + (o.1 + rest.1))[0] == o.1[0]);
                        assert(attr_list_of(ts, full_line, formatted_text).1 == total.1 + attr_entry(
                            last_entry(ts, after_entries(ds, 0), full_line).0,
                            formatted_text,
                            total.0,
                        ).1);
                        assert((total.1 + attr_entry(
                            last_entry(ts, after_entries(ds, 0), full_line).0,
                            formatted_text,
                            total.0,
                        ).1)[0] == total.1[0]);
                    }
                    return Err(d);
                },
                Ok(()) => {},
            }
            line.consume_current();
            proof {
                assert(ts.skip(pos).skip(n as int).drop_first() =~= ts.skip(pos + n + 1));
                assert(acc + (o.1 + rest.1) =~= (acc + o.1) + rest.1);
                if !self.strict {
                    assert(messages(acc + o.1) =~= messages(acc) + messages(o.1));
                    assert(errs0 + messages(acc) + messages(o.1) =~= errs0 + messages(acc + o.1));
                } else {
                    assert(acc + o.1 =~= acc);
                }
                acc = acc + o.1;
                pos = pos + n + 1;
            }
            i = i + 1;
        }
        proof {
            assert(ds.skip(i as int).len() == 0);
            assert(total.1 =~= acc);
        }
        let ghost p = pos;
        let ghost rest = ts.skip(p);
        let tokens = if full_line {
            let k = line.len() - 1;
            let t = take_tokens(line, k);
            assert(rest.take(k as int) =~= rest.drop_last());
            t
        } else if !line.current_is(TokenKind::CloseBracket) {
            let mut k: usize = 0;
            let n = line.len();
            proof {
                lemma_last_entry_end(rest, 0);
            }
            while !(k + 1 < n && line.tokens[k + 1].kind == TokenKind::CloseBracket
                && line.tokens[k].kind != TokenKind::Backslash)
                invariant
                    line@ == rest,
                    n == line@.len(),
                    0 <= k < line@.len(),
                    k <= last_entry_end(rest, 0),
                    last_entry_end(rest, 0) + 1 < rest.len(),
                    last_entry_end(rest, k as int) == last_entry_end(rest, 0),
                decreases rest.len() - k,
            {
                assert(line@[k as int] == token_view(line.tokens@[k as int]));
                assert(line@[k + 1] == token_view(line.tokens@[k + 1]));
                proof {
                    lemma_last_entry_end(rest, k + 1);
                }
                k = k + 1;
            }
            proof {
                assert(line@[k as int] == token_view(line.tokens@[k as int]));
                assert(line@[k + 1] == token_view(line.tokens@[k + 1]));
            }
            take_tokens(line, k + 1)
        } else {
            Vec::new()
        };
        let ghost le = last_entry(ts, p, full_line);
        proof {
            assert(tokens_view(tokens@) =~= le.0);
        }
        let ghost o2 = attr_entry(le.0, formatted_text, attrs@);
        proof {
            assert(total.0 == attrs@);
            assert(after_entries(ds, 0) == p);
            assert(attr_list_of(ts, full_line, formatted_text).1 == total.1 + o2.1);
        }
        let r = self.parse_attr(tokens, formatted_text, &mut attrs);
        match r {
            Err(d) => {
                proof {
                    assert(acc.len() == 0);
                    assert(total.1 + o2.1 =~= o2.1);
                }
                return Err(d);
            },
            Ok(()) => {},
        }
        line.consume_current();
        proof {
            assert(line@ =~= ts.skip(le.1 + 1));
            if !self.strict {
                assert(messages(total.1 + o2.1) =~= messages(total.1) + messages(o2.1));
                assert(errs0 + messages(acc) + messages(o2.1) =~= errs0 + messages(total.1 + o2.1));
            } else {
                assert(total.1 + o2.1 =~= o2.1);
            }
        }
        Ok(attrs)
    }
}

impl Parser {
    /// An attribute list that is a whole line (a block attribute line).
    pub fn parse_block_attr_list(&mut self, line: &mut Line) -> (r: Result<AttrList, Diagnostic>)
        requires
            attr_list_ok(old(line)@, true, false),
        ensures
            list_reported(
                old(self).strict,
                attr_list_of(old(line)@, true, false),
                r,
                old(line)@,
                final(line)@,
                strings_of(old(self).errors@),
                strings_of(final(self).errors@),
            ),
            only_errors_changed(*old(self), *final(self)),
    {
        self.parse_attr_list(line, true, false)
    }

    /// An attribute list inside a line (a macro's).
    pub fn parse_inline_attr_list(&mut self, line: &mut Line) -> (r: Result<AttrList, Diagnostic>)
        requires
            attr_list_ok(old(line)@, false, false),
        ensures
            list_reported(
                old(self).strict,
                attr_list_of(old(line)@, false, false),
                r,
                old(line)@,
                final(line)@,
                strings_of(old(self).errors@),
                strings_of(final(self).errors@),
            ),
            only_errors_changed(*old(self), *final(self)),
    {
        self.parse_attr_list(line, false, false)
    }

    /// The attribute list in front of formatted text, where only shorthand
    /// is taken.
    pub fn parse_formatted_text_attr_list(&mut self, line: &mut Line) -> (r: Result<AttrList, Diagnostic>)
        requires
            attr_list_ok(old(line)@, false, true),
        ensures
            list_reported(
                old(self).strict,
                attr_list_of(old(line)@, false, true),
                r,
                old(line)@,
                final(line)@,
                strings_of(old(self).errors@),
                strings_of(final(self).errors@),
            ),
            only_errors_changed(*old(self), *final(self)),
    {
        self.parse_attr_list(line, false, true)
    }
}

} // verus!
