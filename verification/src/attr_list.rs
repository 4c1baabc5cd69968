//! Attribute lists (`[role=lead,"quoted",#id.role%opt]`) at the token
//! level: where the entries split, how each entry is classified, and the
//! names, groups and values taken from it.
use vstd::prelude::*;

use crate::line::{token_view, tokens_view, Line};
use crate::parser::Parser;
use crate::table_spec::TokenView;
use crate::token::{SourceLocation, SourceString, Token, TokenKind};

verus! {

pub open spec fn is_ws_token(t: TokenView) -> bool {
    t.0 == TokenKind::Whitespace
}

/// The tokens without leading whitespace tokens.
pub open spec fn trim_start_tokens(ts: Seq<TokenView>) -> Seq<TokenView>
    decreases ts.len(),
{
    if ts.len() > 0 && is_ws_token(ts[0]) {
        trim_start_tokens(ts.drop_first())
    } else {
        ts
    }
}

/// The tokens without trailing whitespace tokens.
pub open spec fn trim_end_tokens(ts: Seq<TokenView>) -> Seq<TokenView>
    decreases ts.len(),
{
    if ts.len() > 0 && is_ws_token(ts.last()) {
        trim_end_tokens(ts.drop_last())
    } else {
        ts
    }
}

/// The tokens without whitespace tokens at either end.
pub open spec fn trim_tokens(ts: Seq<TokenView>) -> Seq<TokenView> {
    trim_end_tokens(trim_start_tokens(ts))
}

/// Drops the whitespace tokens at both ends.
pub fn trim(tokens: Vec<Token>) -> (r: Vec<Token>)
    ensures
        tokens_view(r@) == trim_tokens(tokens_view(tokens@)),
{
    let mut tokens = tokens;
    let ghost orig = tokens_view(tokens@);
    while tokens.len() > 0 && tokens[0].kind == TokenKind::Whitespace
        invariant
            trim_start_tokens(tokens_view(tokens@)) == trim_start_tokens(orig),
        decreases tokens@.len(),
    {
        let ghost before = tokens@;
        tokens.remove(0);
        assert(tokens_view(tokens@) =~= tokens_view(before).drop_first());
    }
    assert(trim_start_tokens(tokens_view(tokens@)) == tokens_view(tokens@));
    let ghost started = tokens_view(tokens@);
    while tokens.len() > 0 && tokens[tokens.len() - 1].kind == TokenKind::Whitespace
        invariant
            trim_end_tokens(tokens_view(tokens@)) == trim_end_tokens(started),
            started == trim_start_tokens(orig),
        decreases tokens@.len(),
    {
        let ghost before = tokens@;
        tokens.pop();
        assert(tokens_view(tokens@) =~= tokens_view(before).drop_last());
    }
    tokens
}

/// Quotes around the whole, when both ends are the same kind of quote.
pub open spec fn is_quoted(ts: Seq<TokenView>) -> bool {
    ts.len() > 1 && ((ts[0].0 == TokenKind::DoubleQuote && ts.last().0 == TokenKind::DoubleQuote) || (ts[0].0
        == TokenKind::SingleQuote && ts.last().0 == TokenKind::SingleQuote))
}

/// The tokens with enclosing quotes removed.
pub open spec fn unquote_tokens(ts: Seq<TokenView>) -> Seq<TokenView> {
    if is_quoted(ts) {
        ts.drop_first().drop_last()
    } else {
        ts
    }
}

/// Removes enclosing quotes.
pub fn unquote(tokens: Vec<Token>) -> (r: Vec<Token>)
    ensures
        tokens_view(r@) == unquote_tokens(tokens_view(tokens@)),
{
    let mut tokens = tokens;
    let n = tokens.len();
    if n > 1 && ((tokens[0].kind == TokenKind::DoubleQuote && tokens[n - 1].kind == TokenKind::DoubleQuote) || (
    tokens[0].kind == TokenKind::SingleQuote && tokens[n - 1].kind == TokenKind::SingleQuote)) {
        let ghost before = tokens@;
        tokens.remove(0);
        tokens.pop();
        assert(tokens_view(tokens@) =~= tokens_view(before).drop_first().drop_last());
    }
    tokens
}

/// The state of the search for the commas that separate entries: the
/// token counts of the entries so far, where an open double or single
/// quote began (as a number of entries), and the tokens of the current
/// entry.
pub struct DelimScan {
    pub delims: Seq<usize>,
    pub dq: Option<nat>,
    pub sq: Option<nat>,
    pub n: int,
}

pub open spec fn delims_sum(d: Seq<usize>) -> int
    decreases d.len(),
{
    if d.len() == 0 {
        0
    } else {
        delims_sum(d.drop_last()) + d.last()
    }
}

/// Closing a double quote takes back the entries split off inside it: each
/// one's tokens and its comma rejoin the current entry.
pub open spec fn rejoin(delims: Seq<usize>, prev: nat, n: int) -> (Seq<usize>, int)
    decreases delims.len(),
{
    if delims.len() > prev {
        rejoin(delims.drop_last(), prev, n + delims.last() + 1)
    } else {
        (delims, n)
    }
}

/// One token of the search.
pub open spec fn delim_step(st: DelimScan, k: TokenKind) -> DelimScan {
    let n = st.n + 1;
    if k == TokenKind::DoubleQuote {
        match st.dq {
            None => DelimScan { dq: Some(st.delims.len()), n, ..st },
            Some(prev) => {
                let r = rejoin(st.delims, prev, n);
                DelimScan { delims: r.0, dq: None, n: r.1, ..st }
            },
        }
    } else if k == TokenKind::SingleQuote {
        match st.sq {
            None => DelimScan { sq: Some(st.delims.len()), n, ..st },
            Some(prev) => DelimScan {
                delims: if prev < st.delims.len() {
                    st.delims.take(prev as int)
                } else {
                    st.delims
                },
                sq: None,
                n,
                ..st
            },
        }
    } else if k == TokenKind::Comma {
        DelimScan { delims: st.delims.push((n - 1) as usize), n: 0, ..st }
    } else {
        DelimScan { n, ..st }
    }
}

/// The search over the tokens, in order.
pub open spec fn delim_scan(ts: Seq<TokenView>) -> DelimScan
    decreases ts.len(),
{
    if ts.len() == 0 {
        DelimScan { delims: Seq::empty(), dq: None, sq: None, n: 0 }
    } else {
        delim_step(delim_scan(ts.drop_last()), ts.last().0)
    }
}

proof fn lemma_delims_sum_nonneg(d: Seq<usize>)
    ensures
        delims_sum(d) >= 0,
    decreases d.len(),
{
    if d.len() > 0 {
        lemma_delims_sum_nonneg(d.drop_last());
    }
}

proof fn lemma_delims_sum_take(d: Seq<usize>, k: int)
    requires
        0 <= k <= d.len(),
    ensures
        delims_sum(d.take(k)) <= delims_sum(d),
    decreases d.len(),
{
    if k < d.len() {
        assert(d.drop_last().take(k) =~= d.take(k));
        lemma_delims_sum_take(d.drop_last(), k);
    } else {
        assert(d.take(k) =~= d);
    }
}

impl Parser {
    /// The token counts of all entries of an attribute list but the last,
    /// each ended by a comma outside quotes; the line's last token (the
    /// closing bracket) is not looked at.
    pub fn find_delimiters(&self, line: &Line) -> (r: Vec<usize>)
        requires
            line@.len() > 0,
        ensures
            r@ == delim_scan(line@.take(line@.len() - 1)).delims,
    {
        let ghost ts = line@;
        let mut delimiters: Vec<usize> = Vec::new();
        let mut double_start_len: Option<usize> = None;
        let mut single_start_len: Option<usize> = None;
        let mut num_tokens: usize = 0;
        let last = line.tokens.len() - 1;
        let mut i: usize = 0;
        while i < last
            invariant
                0 <= i <= last,
                last == ts.len() - 1,
                ts == line@,
                ({
                    let st = delim_scan(ts.take(i as int));
                    &&& st.delims == delimiters@
                    &&& st.n == num_tokens
                    &&& st.dq == match double_start_len {
                        Some(v) => Some(v as nat),
                        None => None::<nat>,
                    }
                    &&& st.sq == match single_start_len {
                        Some(v) => Some(v as nat),
                        None => None::<nat>,
                    }
                }),
                num_tokens + delims_sum(delimiters@) + delimiters@.len() <= i,
            decreases last - i,
        {
            proof {
                assert(ts.take(i + 1).drop_last() =~= ts.take(i as int));
                assert(ts.take(i + 1).last() == ts[i as int]);
            }
            let kind = line.tokens[i].kind;
            assert(kind == ts[i as int].0);
            proof {
                lemma_delims_sum_nonneg(delimiters@);
            }
            num_tokens = num_tokens + 1;
            if kind == TokenKind::DoubleQuote {
                match double_start_len {
                    None => {
                        double_start_len = Some(delimiters.len());
                    },
                    Some(prev_len) => {
                        let ghost target = rejoin(delimiters@, prev_len as nat, num_tokens as int);
                        while delimiters.len() > prev_len
                            invariant
                                rejoin(delimiters@, prev_len as nat, num_tokens as int) == target,
                                num_tokens + delims_sum(delimiters@) + delimiters@.len() <= i + 1,
                                i < last,
                            decreases delimiters@.len(),
                        {
                            let ghost before = delimiters@;
                            let d = delimiters.pop().unwrap();
                            assert(delimiters@ =~= before.drop_last());
                            proof {
                                lemma_delims_sum_nonneg(delimiters@);
                            }
                            num_tokens = num_tokens + d;
                            num_tokens = num_tokens + 1;
                        }
                        double_start_len = None;
                    },
                }
            } else if kind == TokenKind::SingleQuote {
                match single_start_len {
                    None => {
                        single_start_len = Some(delimiters.len());
                    },
                    Some(prev_len) => {
                        let ghost before = delimiters@;
                        delimiters.truncate(prev_len);
                        proof {
                            if (prev_len as int) < before.len() {
                                assert(delimiters@ =~= before.take(prev_len as int));
                                lemma_delims_sum_take(before, prev_len as int);
                            } else {
                                assert(delimiters@ =~= before);
                            }
                        }
                        single_start_len = None;
                    },
                }
            } else if kind == TokenKind::Comma {
                let ghost before = delimiters@;
                delimiters.push(num_tokens - 1);
                assert(delimiters@.drop_last() =~= before);
                num_tokens = 0;
            }
            i = i + 1;
        }
        delimiters
    }
}

pub open spec fn groups_view(g: Seq<Vec<Token>>) -> Seq<Seq<TokenView>> {
    g.map_values(|v: Vec<Token>| tokens_view(v@))
}

/// Adds a group unless it is empty.
pub open spec fn push_nonempty(g: Seq<Seq<TokenView>>, x: Seq<TokenView>) -> Seq<Seq<TokenView>> {
    if x.len() > 0 {
        g.push(x)
    } else {
        g
    }
}

/// Groups split off so far (trimmed, empty ones dropped) and the group
/// being gathered.
pub open spec fn subgroup_scan(ts: Seq<TokenView>, k: TokenKind) -> (Seq<Seq<TokenView>>, Seq<TokenView>)
    decreases ts.len(),
{
    if ts.len() == 0 {
        (Seq::empty(), Seq::empty())
    } else {
        let prev = subgroup_scan(ts.drop_last(), k);
        if ts.last().0 == k {
            (push_nonempty(prev.0, trim_tokens(prev.1)), Seq::empty())
        } else {
            (prev.0, prev.1.push(ts.last()))
        }
    }
}

/// The tokens split on tokens of kind `k`, each part trimmed, empty parts
/// dropped.
pub open spec fn subgroups(ts: Seq<TokenView>, k: TokenKind) -> Seq<Seq<TokenView>> {
    let sc = subgroup_scan(ts, k);
    push_nonempty(sc.0, trim_tokens(sc.1))
}

impl Parser {
    /// Splits the value of `options` (on commas) or `role` (on spaces)
    /// into its entries.
    pub fn parse_attr_subgroups(&self, delimiter: TokenKind, tokens: Vec<Token>) -> (r: Vec<Vec<Token>>)
        ensures
            groups_view(r@) == subgroups(tokens_view(tokens@), delimiter),
    {
        let ghost orig = tokens_view(tokens@);
        let mut tokens = tokens;
        let mut groups: Vec<Vec<Token>> = Vec::new();
        let mut current: Vec<Token> = Vec::new();
        let mut done: usize = 0;
        assert(orig.len() == tokens.len());
        while tokens.len() > 0
            invariant
                done + tokens@.len() == orig.len(),
                orig.len() <= usize::MAX,
                tokens_view(tokens@) == orig.skip(done as int),
                groups_view(groups@) == subgroup_scan(orig.take(done as int), delimiter).0,
                tokens_view(current@) == subgroup_scan(orig.take(done as int), delimiter).1,
            decreases tokens@.len(),
        {
            let ghost before = tokens@;
            let token = tokens.remove(0);
            proof {
                assert(tokens_view(tokens@) =~= tokens_view(before).drop_first());
                assert(orig.take(done + 1).drop_last() =~= orig.take(done as int));
                assert(orig.take(done + 1).last() == orig[done as int]);
                assert(orig.skip(done as int)[0] == orig[done as int]);
                assert(orig.skip(done as int).drop_first() =~= orig.skip(done + 1));
            }
            if token.kind == delimiter {
                let finished = current;
                current = Vec::new();
                let trimmed = trim(finished);
                if trimmed.len() > 0 {
                    let ghost g0 = groups@;
                    groups.push(trimmed);
                    assert(groups_view(groups@) =~= groups_view(g0).push(tokens_view(trimmed@)));
                }
                assert(tokens_view(current@) =~= Seq::<TokenView>::empty());
            } else {
                let ghost c0 = current@;
                current.push(token);
                assert(tokens_view(current@) =~= tokens_view(c0).push(orig[done as int]));
            }
            done = done + 1;
        }
        assert(orig.take(done as int) =~= orig);
        let trimmed = trim(current);
        if trimmed.len() > 0 {
            let ghost g0 = groups@;
            groups.push(trimmed);
            assert(groups_view(groups@) =~= groups_view(g0).push(tokens_view(trimmed@)));
        }
        groups
    }
}

/// The first `=` token at or after `i`; the length when there is none.
pub open spec fn first_eq_from(ts: Seq<TokenView>, i: int) -> int
    decreases ts.len() - i,
{
    if i < 0 || i >= ts.len() {
        ts.len() as int
    } else if ts[i].0 == TokenKind::EqualSigns {
        i
    } else {
        first_eq_from(ts, i + 1)
    }
}

/// A name (and its location) continued by the tokens before the `=`,
/// whitespace skipped.
pub open spec fn key_name(mid: Seq<TokenView>, name: Seq<char>, loc: SourceLocation) -> (Seq<char>, SourceLocation)
    decreases mid.len(),
{
    if mid.len() == 0 {
        (name, loc)
    } else {
        let p = key_name(mid.drop_last(), name, loc);
        if is_ws_token(mid.last()) {
            p
        } else {
            (p.0 + mid.last().2, crate::token::extended(p.1, mid.last().1))
        }
    }
}

/// An attribute list entry, classified.
#[derive(Debug)]
pub enum AttrIr {
    /// A positional value; the flag tells that shorthand symbols
    /// (`#`, `.`, `%`) follow the value in it.
    Positional(Vec<Token>, bool),
    Named(SourceString, Vec<Token>),
    Options(Vec<Vec<Token>>),
    Roles(Vec<Vec<Token>>),
    Shorthand(Vec<Token>),
    Id(Vec<Token>),
}

/// An entry as the specifications see it.
pub enum AttrIrV {
    Positional(Seq<TokenView>, bool),
    Named(Seq<char>, SourceLocation, Seq<TokenView>),
    Options(Seq<Seq<TokenView>>),
    Roles(Seq<Seq<TokenView>>),
    Shorthand(Seq<TokenView>),
    Id(Seq<TokenView>),
}

impl View for AttrIr {
    type V = AttrIrV;

    open spec fn view(&self) -> AttrIrV {
        match self {
            AttrIr::Positional(ts, b) => AttrIrV::Positional(tokens_view(ts@), *b),
            AttrIr::Named(n, ts) => AttrIrV::Named(n.src@, n.loc, tokens_view(ts@)),
            AttrIr::Options(g) => AttrIrV::Options(groups_view(g@)),
            AttrIr::Roles(g) => AttrIrV::Roles(groups_view(g@)),
            AttrIr::Shorthand(ts) => AttrIrV::Shorthand(tokens_view(ts@)),
            AttrIr::Id(ts) => AttrIrV::Id(tokens_view(ts@)),
        }
    }
}

/// A `name=value` entry: `options`/`opts` and `role` split their values
/// into groups, `id` keeps its value, anything else is a named attribute.
/// Quotes around the value are dropped, and one space after the `=`.
pub open spec fn key_value_ir(ts: Seq<TokenView>) -> AttrIrV {
    let e = first_eq_from(ts, 1);
    let nm = key_name(ts.subrange(1, e), ts[0].2, ts[0].1);
    let rest0 = ts.skip(e + 1);
    let rest = if rest0.len() > 0 && is_ws_token(rest0[0]) {
        rest0.drop_first()
    } else {
        rest0
    };
    if nm.0 == "options"@ || nm.0 == "opts"@ {
        AttrIrV::Options(subgroups(unquote_tokens(rest), TokenKind::Comma))
    } else if nm.0 == "role"@ {
        AttrIrV::Roles(subgroups(unquote_tokens(rest), TokenKind::Whitespace))
    } else if nm.0 == "id"@ {
        AttrIrV::Id(unquote_tokens(rest))
    } else {
        AttrIrV::Named(nm.0, nm.1, unquote_tokens(rest))
    }
}

proof fn lemma_first_eq_from(ts: Seq<TokenView>, i: int, j: int)
    requires
        0 <= i <= j <= first_eq_from(ts, i),
    ensures
        first_eq_from(ts, j) == first_eq_from(ts, i),
    decreases j - i,
{
    if i < j {
        lemma_first_eq_from(ts, i + 1, j);
    }
}

proof fn lemma_first_eq_bounds(ts: Seq<TokenView>, i: int)
    requires
        0 <= i,
    ensures
        i <= first_eq_from(ts, i) <= ts.len() || (i > ts.len() && first_eq_from(ts, i) == ts.len()),
        first_eq_from(ts, i) < ts.len() ==> ts[first_eq_from(ts, i)].0 == TokenKind::EqualSigns,
    decreases ts.len() - i,
{
    if i < ts.len() && ts[i].0 != TokenKind::EqualSigns {
        lemma_first_eq_bounds(ts, i + 1);
    }
}

pub(crate) fn append_chars(dest: &mut Vec<char>, src: &Vec<char>)
    ensures
        final(dest)@ == old(dest)@ + src@,
{
    let mut i: usize = 0;
    while i < src.len()
        invariant
            0 <= i <= src@.len(),
            dest@ == old(dest)@ + src@.take(i as int),
        decreases src@.len() - i,
    {
        dest.push(src[i]);
        assert(src@.take(i + 1) =~= src@.take(i as int).push(src@[i as int]));
        i = i + 1;
    }
    assert(src@.take(i as int) =~= src@);
}

impl Parser {
    /// Classifies a `name=value` entry.
    pub fn parse_key_value_attr(&self, tokens: Vec<Token>) -> (r: AttrIr)
        requires
            1 <= first_eq_from(tokens_view(tokens@), 1) < tokens@.len(),
        ensures
            r@ == key_value_ir(tokens_view(tokens@)),
    {
        let ghost ts = tokens_view(tokens@);
        let ghost e = first_eq_from(ts, 1);
        proof {
            lemma_first_eq_bounds(ts, 1);
        }
        let mut tokens = tokens;
        let ghost t0 = tokens@;
        let n0 = tokens.len();
        assert(ts.len() == n0);
        let first = tokens.remove(0);
        assert(tokens_view(tokens@) =~= ts.skip(1));
        let mut name: Vec<char> = first.chars();
        let mut name_loc = first.loc;
        let mut j: usize = 1;
        assert(ts.subrange(1, 1) =~= Seq::<TokenView>::empty());
        assert(ts.len() == t0.len());
        loop
            invariant_except_break
                1 <= j <= e < ts.len(),
                ts.len() <= usize::MAX,
                first_eq_from(ts, 1) == e,
                tokens_view(tokens@) == ts.skip(j as int),
                (name@, name_loc) == key_name(ts.subrange(1, j as int), ts[0].2, ts[0].1),
                ts[e].0 == TokenKind::EqualSigns,
            ensures
                1 <= j <= e < ts.len(),
                tokens_view(tokens@) == ts.skip(e + 1),
                (name@, name_loc) == key_name(ts.subrange(1, e), ts[0].2, ts[0].1),
            decreases ts.len() - j,
        {
            proof {
                lemma_first_eq_from(ts, 1, j as int);
            }
            let ghost before = tokens@;
            assert(tokens_view(before).len() == before.len());
            assert(ts.skip(j as int).len() > 0);
            let next = tokens.remove(0);
            assert(tokens_view(tokens@) =~= tokens_view(before).drop_first());
            assert(tokens_view(tokens@) =~= ts.skip(j + 1));
            assert(next == before[0]);
            assert(tokens_view(before)[0] == token_view(before[0]));
            assert(ts.skip(j as int)[0] == ts[j as int]);
            assert(token_view(next) == ts[j as int]);
            if next.kind == TokenKind::EqualSigns {
                assert(j == e);
                break;
            }
            assert(ts.subrange(1, j + 1).drop_last() =~= ts.subrange(1, j as int));
            if next.kind != TokenKind::Whitespace {
                let more = next.chars();
                append_chars(&mut name, &more);
                name_loc.extend(next.loc);
            }
            j = j + 1;
        }
        if tokens.len() > 0 && tokens[0].kind == TokenKind::Whitespace {
            let ghost b = tokens@;
            tokens.remove(0);
            assert(tokens_view(tokens@) =~= tokens_view(b).drop_first());
        }
        let name_str = crate::text::string_of(name.as_slice());
        let value = unquote(tokens);
        if crate::text::str_eq(name_str.as_str(), "options") || crate::text::str_eq(name_str.as_str(), "opts") {
            AttrIr::Options(self.parse_attr_subgroups(TokenKind::Comma, value))
        } else if crate::text::str_eq(name_str.as_str(), "role") {
            AttrIr::Roles(self.parse_attr_subgroups(TokenKind::Whitespace, value))
        } else if crate::text::str_eq(name_str.as_str(), "id") {
            AttrIr::Id(value)
        } else {
            AttrIr::Named(SourceString { src: name_str, loc: name_loc }, value)
        }
    }
}

/// How an entry reads, decided by its first telling token.
#[derive(Debug, Clone, Copy, PartialEq, Eq, Structural)]
pub enum IrKind {
    Shorthand,
    Positional,
    KeyValue,
}

/// A one-byte `.`, `#` or `%`: a role, id or option shorthand symbol.
pub open spec fn is_shorthand_symbol(t: TokenView) -> bool {
    (t.0 == TokenKind::Dots || t.0 == TokenKind::Hash || t.0 == TokenKind::Percent) && crate::line::byte_len(t.2)
        == 1
}

/// What the token at `i` tells of the entry, if anything: a leading
/// shorthand symbol makes it shorthand, a quote or a space not before `=`
/// or a leading `=` positional, a lone `=` key-value.
pub open spec fn classify_at(ts: Seq<TokenView>, i: int) -> Option<IrKind> {
    let t = ts[i];
    if is_shorthand_symbol(t) && i == 0 && ts.len() > 1 {
        Some(IrKind::Shorthand)
    } else if is_shorthand_symbol(t) {
        None
    } else if t.0 == TokenKind::DoubleQuote || t.0 == TokenKind::SingleQuote {
        Some(IrKind::Positional)
    } else if t.0 == TokenKind::Whitespace && !(i + 1 < ts.len() && ts[i + 1].0 == TokenKind::EqualSigns && ts[i
        + 1].2 == seq!['=']) {
        Some(IrKind::Positional)
    } else if t.0 == TokenKind::EqualSigns && i == 0 {
        Some(IrKind::Positional)
    } else if t.0 == TokenKind::EqualSigns && crate::line::byte_len(t.2) == 1 {
        Some(IrKind::KeyValue)
    } else {
        None
    }
}

/// The kind decided from `i` on, and whether a shorthand symbol was passed
/// before the decision.
pub open spec fn classify_from(ts: Seq<TokenView>, i: int) -> (Option<IrKind>, bool)
    decreases ts.len() - i,
{
    if i < 0 || i >= ts.len() {
        (None, false)
    } else {
        match classify_at(ts, i) {
            Some(k) => (Some(k), false),
            None => {
                let r = classify_from(ts, i + 1);
                (r.0, r.1 || is_shorthand_symbol(ts[i]))
            },
        }
    }
}

/// An attribute list entry (already trimmed), classified.
pub open spec fn attr_ir_of(ts: Seq<TokenView>) -> AttrIrV {
    let c = classify_from(ts, 0);
    match c.0 {
        Some(IrKind::Shorthand) => AttrIrV::Shorthand(ts),
        Some(IrKind::KeyValue) => key_value_ir(ts),
        _ => {
            let u = unquote_tokens(ts);
            AttrIrV::Positional(u, c.1 && u.len() == ts.len())
        },
    }
}

proof fn lemma_key_value_has_eq(ts: Seq<TokenView>, i: int)
    requires
        0 <= i,
        classify_from(ts, i).0 == Some(IrKind::KeyValue),
    ensures
        first_eq_from(ts, if i == 0 { 1 } else { i }) < ts.len(),
    decreases ts.len() - i,
{
    if classify_at(ts, i) is None {
        lemma_key_value_has_eq(ts, i + 1);
        if i == 0 {
            assert(ts[0].0 != TokenKind::EqualSigns || crate::line::byte_len(ts[0].2) != 1);
            assert(ts[0].0 != TokenKind::EqualSigns);
        }
    }
}

fn is_shorthand_token(t: &Token) -> (r: bool)
    ensures
        r == is_shorthand_symbol(token_view(*t)),
{
    (t.kind == TokenKind::Dots || t.kind == TokenKind::Hash || t.kind == TokenKind::Percent) && t.len() == 1
}

fn classify_token(tokens: &Vec<Token>, i: usize) -> (r: Option<IrKind>)
    requires
        i < tokens@.len(),
    ensures
        r == classify_at(tokens_view(tokens@), i as int),
{
    let t = &tokens[i];
    let n = tokens.len();
    let ghost ts = tokens_view(tokens@);
    assert(ts[i as int] == token_view(*t));
    if is_shorthand_token(t) && i == 0 && n > 1 {
        Some(IrKind::Shorthand)
    } else if is_shorthand_token(t) {
        None
    } else if t.kind == TokenKind::DoubleQuote || t.kind == TokenKind::SingleQuote {
        Some(IrKind::Positional)
    } else if t.kind == TokenKind::Whitespace {
        let before_eq = if i + 1 < n {
            let nt = &tokens[i + 1];
            assert(ts[i + 1] == token_view(*nt));
            let ncs = nt.chars();
            let is_eq = nt.kind == TokenKind::EqualSigns && ncs.len() == 1 && ncs[0] == '=';
            proof {
                if nt.kind == TokenKind::EqualSigns && ncs@ == seq!['='] {
                    assert(ncs@.len() == 1 && ncs@[0] == '=');
                }
                if is_eq {
                    assert(ncs@ =~= seq!['=']);
                }
            }
            is_eq
        } else {
            false
        };
        if before_eq {
            None
        } else {
            Some(IrKind::Positional)
        }
    } else if t.kind == TokenKind::EqualSigns && i == 0 {
        Some(IrKind::Positional)
    } else if t.kind == TokenKind::EqualSigns && t.len() == 1 {
        Some(IrKind::KeyValue)
    } else {
        None
    }
}

impl Parser {
    /// Classifies a trimmed attribute list entry.
    pub fn attr_ir(&self, tokens: Vec<Token>) -> (r: AttrIr)
        ensures
            r@ == attr_ir_of(tokens_view(tokens@)),
    {
        let ghost ts = tokens_view(tokens@);
        let mut saw_shorthand_symbol = false;
        let mut kind: Option<IrKind> = None;
        let mut k: usize = 0;
        while k < tokens.len()
            invariant_except_break
                0 <= k <= tokens@.len(),
                ts == tokens_view(tokens@),
                kind is None,
                classify_from(ts, 0) == ({
                    let r = classify_from(ts, k as int);
                    (r.0, r.1 || saw_shorthand_symbol)
                }),
            ensures
                ts == tokens_view(tokens@),
                classify_from(ts, 0) == (kind, saw_shorthand_symbol),
            decreases tokens@.len() - k,
        {
            let c = classify_token(&tokens, k);
            match c {
                Some(found) => {
                    kind = Some(found);
                    break;
                },
                None => {
                    if is_shorthand_token(&tokens[k]) {
                        saw_shorthand_symbol = true;
                    }
                },
            }
            k = k + 1;
        }
        match kind {
            Some(IrKind::Shorthand) => AttrIr::Shorthand(tokens),
            Some(IrKind::KeyValue) => {
                proof {
                    lemma_key_value_has_eq(ts, 0);
                    lemma_first_eq_bounds(ts, 1);
                }
                self.parse_key_value_attr(tokens)
            },
            _ => {
                let orig_len = tokens.len();
                let u = unquote(tokens);
                let flag = saw_shorthand_symbol && u.len() == orig_len;
                AttrIr::Positional(u, flag)
            },
        }
    }
}

} // verus!
