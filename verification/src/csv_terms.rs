//! Splitting the tokens of an index term macro's text into its
//! comma-separated terms.
use vstd::prelude::*;

use crate::line::{fits, tokens_view, Line, TokenSpec};
use crate::token::{SourceLocation, Token, TokenKind};

verus! {

/// A token as the specifications see it: kind, location and text.
pub type TokenV = (TokenKind, SourceLocation, Seq<char>);

/// `s` without its trailing whitespace tokens.
pub open spec fn trim_ws_end(s: Seq<TokenV>) -> Seq<TokenV>
    decreases s.len(),
{
    if s.len() > 0 && s.last().0 == TokenKind::Whitespace {
        trim_ws_end(s.drop_last())
    } else {
        s
    }
}

/// `items` with the term `cur` added, once its trailing whitespace is
/// dropped, unless nothing is left of it.
pub open spec fn flushed(items: Seq<Seq<TokenV>>, cur: Seq<TokenV>) -> Seq<Seq<TokenV>> {
    let t = trim_ws_end(cur);
    if t.len() > 0 {
        items.push(t)
    } else {
        items
    }
}

/// Where a split stands: the terms found, the term being read, whether a
/// quote is open, and whether whitespace after a comma is being skipped.
pub struct CsvScan {
    pub items: Seq<Seq<TokenV>>,
    pub cur: Seq<TokenV>,
    pub in_quotes: bool,
    pub skipping: bool,
}

/// Splitting `ts` from position `i` on, in state `st`: how many tokens are
/// consumed in all, and the terms. It stops before the first token fitting
/// `stop`, outside the whitespace skipped after a comma. A comma outside
/// quotes ends a term; double quotes open and close a quote and are
/// dropped; every other token joins the current term.
pub open spec fn csv_split(ts: Seq<TokenV>, stop: TokenSpec, i: int, st: CsvScan) -> (int, Seq<Seq<TokenV>>)
    decreases ts.len() - i,
{
    if i < 0 || i >= ts.len() {
        (i, flushed(st.items, st.cur))
    } else {
        let t = ts[i];
        if st.skipping && t.0 == TokenKind::Whitespace {
            csv_split(ts, stop, i + 1, st)
        } else if fits(stop, t.0, t.2) {
            (i, flushed(st.items, st.cur))
        } else if t.0 == TokenKind::Comma && !st.in_quotes {
            csv_split(ts, stop, i + 1, CsvScan { items: flushed(st.items, st.cur), cur: seq![], in_quotes: false, skipping: true })
        } else if t.0 == TokenKind::DoubleQuote {
            csv_split(ts, stop, i + 1, CsvScan { in_quotes: !st.in_quotes, skipping: false, ..st })
        } else {
            csv_split(ts, stop, i + 1, CsvScan { cur: st.cur.push(t), skipping: false, ..st })
        }
    }
}

/// The state a split starts in.
pub open spec fn csv_start() -> CsvScan {
    CsvScan { items: seq![], cur: seq![], in_quotes: false, skipping: false }
}

/// The terms, each as the specifications see it.
pub open spec fn terms_view(items: Seq<Vec<Token>>) -> Seq<Seq<TokenV>> {
    items.map_values(|v: Vec<Token>| tokens_view(v@))
}

/// Drops trailing whitespace tokens from `cur`.
fn trim_trailing_ws(cur: &mut Vec<Token>)
    ensures
        tokens_view(final(cur)@) == trim_ws_end(tokens_view(old(cur)@)),
{
    while cur.len() > 0 && cur[cur.len() - 1].kind == TokenKind::Whitespace
        invariant
            trim_ws_end(tokens_view(cur@)) == trim_ws_end(tokens_view(old(cur)@)),
        decreases cur@.len(),
    {
        let ghost before = cur@;
        cur.pop();
        assert(tokens_view(cur@) =~= tokens_view(before).drop_last());
    }
    proof {
        let v = tokens_view(cur@);
        if v.len() > 0 {
            assert(v.last() == crate::line::token_view(cur@[cur@.len() - 1]));
        }
    }
}

/// Adds the term `cur`, trimmed, to `items` unless nothing is left of it;
/// `cur` is left empty.
fn flush_term(items: &mut Vec<Vec<Token>>, cur: &mut Vec<Token>)
    ensures
        terms_view(final(items)@) == flushed(terms_view(old(items)@), tokens_view(old(cur)@)),
        final(cur)@.len() == 0,
{
    trim_trailing_ws(cur);
    let mut term: Vec<Token> = Vec::new();
    std::mem::swap(&mut term, cur);
    if term.len() > 0 {
        let ghost before = items@;
        items.push(term);
        assert(terms_view(items@) =~= terms_view(before).push(tokens_view(term@)));
    }
    assert(tokens_view(cur@) =~= Seq::<TokenV>::empty());
}

impl Line {
    /// Consumes the tokens up to the first one fitting `stop` and splits
    /// them into comma-separated terms: commas inside double quotes do not
    /// split, the quotes themselves are dropped, whitespace around a term is
    /// dropped, and empty terms are left out.
    pub fn consume_splitting_csv_until(&mut self, stop: TokenSpec) -> (r: Vec<Vec<Token>>)
        ensures
            ({
                let (n, terms) = csv_split(old(self)@, stop, 0, csv_start());
                &&& 0 <= n <= old(self)@.len()
                &&& final(self)@ == old(self)@.skip(n)
                &&& terms_view(r@) == terms
            }),
    {
        let ghost orig = self@;
        let mut items: Vec<Vec<Token>> = Vec::new();
        let mut cur: Vec<Token> = Vec::new();
        let mut in_quotes = false;
        let mut skipping = false;
        let ghost mut k: int = 0;
        assert(orig.skip(0) =~= orig);
        assert(terms_view(items@) =~= Seq::<Seq<TokenV>>::empty());
        assert(tokens_view(cur@) =~= Seq::<TokenV>::empty());
        loop
            invariant
                0 <= k <= orig.len(),
                self@ == orig.skip(k),
                csv_split(orig, stop, 0, csv_start()) == csv_split(
                    orig,
                    stop,
                    k,
                    CsvScan { items: terms_view(items@), cur: tokens_view(cur@), in_quotes, skipping },
                ),
            ensures
                0 <= k <= orig.len(),
                self@ == orig.skip(k),
                csv_split(orig, stop, 0, csv_start()) == (k, flushed(terms_view(items@), tokens_view(cur@))),
            decreases orig.len() - k,
        {
            let st = match self.current_token() {
                None => None,
                Some(t) => Some((t.kind, stop.matches(t))),
            };
            match st {
                None => {
                    assert(k == orig.len());
                    break;
                },
                Some((kind, at_stop)) => {
                    assert(self@[0] == orig[k]);
                    if skipping && kind == TokenKind::Whitespace {
                        self.consume_current();
                    } else if at_stop {
                        break;
                    } else if kind == TokenKind::Comma && !in_quotes {
                        flush_term(&mut items, &mut cur);
                        assert(tokens_view(cur@) =~= Seq::<TokenV>::empty());
                        self.consume_current();
                        in_quotes = false;
                        skipping = true;
                    } else if kind == TokenKind::DoubleQuote {
                        in_quotes = !in_quotes;
                        skipping = false;
                        self.consume_current();
                    } else {
                        let t = self.consume_current().unwrap();
                        let ghost before = cur@;
                        cur.push(t);
                        assert(tokens_view(cur@) =~= tokens_view(before).push(orig[k]));
                        skipping = false;
                    }
                    proof {
                        assert(orig.skip(k).drop_first() =~= orig.skip(k + 1));
                        k = k + 1;
                    }
                },
            }
        }
        flush_term(&mut items, &mut cur);
        items
    }
}

} // verus!
