//! A line of tokens, consumed from the front, and the token patterns lines
//! are matched against.
use vstd::prelude::*;

use crate::token::{Token, TokenKind};

verus! {

/// A pattern for one token: any token of a kind, or one of a kind with a
/// given byte length.
#[derive(Debug, PartialEq, Eq, Structural, Clone, Copy)]
pub enum TokenSpec {
    Kind(TokenKind),
    Len(usize, TokenKind),
}

/// Byte length of a token text.
pub open spec fn byte_len(s: Seq<char>) -> nat {
    vstd::utf8::encode_utf8(s).len()
}

/// Whether a token with `kind` and text `lexeme` fits the pattern.
pub open spec fn fits(spec: TokenSpec, kind: TokenKind, lexeme: Seq<char>) -> bool {
    match spec {
        TokenSpec::Kind(k) => kind == k,
        TokenSpec::Len(n, k) => kind == k && byte_len(lexeme) == n,
    }
}

impl TokenSpec {
    /// The kind the pattern asks for.
    pub fn token_kind(&self) -> (k: TokenKind)
        ensures
            k == match *self {
                TokenSpec::Kind(k) => k,
                TokenSpec::Len(_, k) => k,
            },
    {
        match self {
            TokenSpec::Kind(k) => *k,
            TokenSpec::Len(_, k) => *k,
        }
    }

    /// Whether the token fits the pattern.
    pub fn matches(&self, t: &Token) -> (r: bool)
        ensures
            r == fits(*self, t.kind, t.lexeme@),
    {
        match self {
            TokenSpec::Kind(k) => t.kind == *k,
            TokenSpec::Len(n, k) => t.kind == *k && t.len() == *n,
        }
    }
}

/// The tokens of a line not yet consumed, in order.
#[derive(Debug)]
pub struct Line {
    pub tokens: Vec<Token>,
}

/// A token as its kind, location and text.
pub open spec fn token_view(t: Token) -> (TokenKind, crate::token::SourceLocation, Seq<char>) {
    (t.kind, t.loc, t.lexeme@)
}

pub open spec fn tokens_view(ts: Seq<Token>) -> Seq<(TokenKind, crate::token::SourceLocation, Seq<char>)> {
    ts.map_values(|t: Token| token_view(t))
}

/// Whether the tokens from `offset` on start with ones fitting `specs`.
pub open spec fn seq_at(
    toks: Seq<(TokenKind, crate::token::SourceLocation, Seq<char>)>,
    specs: Seq<TokenSpec>,
    offset: int,
) -> bool {
    offset + specs.len() <= toks.len() && forall|i: int|
        0 <= i < specs.len() ==> fits(#[trigger] specs[i], toks[offset + i].0, toks[offset + i].2)
}

impl View for Line {
    type V = Seq<(TokenKind, crate::token::SourceLocation, Seq<char>)>;

    open spec fn view(&self) -> Self::V {
        tokens_view(self.tokens@)
    }
}

impl Line {
    pub fn new(tokens: Vec<Token>) -> (l: Line)
        ensures
            l.tokens@ == tokens@,
    {
        Line { tokens }
    }

    pub fn len(&self) -> (n: usize)
        ensures
            n == self@.len(),
    {
        self.tokens.len()
    }

    pub fn is_empty(&self) -> (r: bool)
        ensures
            r == (self@.len() == 0),
    {
        self.tokens.len() == 0
    }

    /// The first token not yet consumed.
    pub fn current_token(&self) -> (r: Option<&Token>)
        ensures
            self@.len() == 0 ==> r is None,
            self@.len() > 0 ==> (r matches Some(t) && token_view(*t) == self@[0]),
    {
        if self.tokens.len() == 0 {
            None
        } else {
            Some(&self.tokens[0])
        }
    }

    /// The token `n` places after the current one.
    pub fn nth_token(&self, n: usize) -> (r: Option<&Token>)
        ensures
            n >= self@.len() ==> r is None,
            n < self@.len() ==> (r matches Some(t) && token_view(*t) == self@[n as int]),
    {
        if n < self.tokens.len() {
            Some(&self.tokens[n])
        } else {
            None
        }
    }

    /// Removes and returns the current token.
    pub fn consume_current(&mut self) -> (r: Option<Token>)
        ensures
            old(self)@.len() == 0 ==> r is None && final(self)@ == old(self)@,
            old(self)@.len() > 0 ==> (r matches Some(t) && token_view(t) == old(self)@[0])
                && final(self)@ == old(self)@.drop_first(),
    {
        if self.tokens.len() == 0 {
            None
        } else {
            let t = self.tokens.remove(0);
            assert(self@ =~= old(self)@.drop_first());
            Some(t)
        }
    }

    /// Drops the next `n` tokens (all of them when there are fewer).
    pub fn discard(&mut self, n: usize)
        ensures
            final(self)@ == old(self)@.skip(if n <= old(self)@.len() { n as int } else { old(self)@.len() as int }),
    {
        let mut i: usize = 0;
        while i < n && self.tokens.len() > 0
            invariant
                0 <= i <= n,
                i <= old(self)@.len(),
                self@ == old(self)@.skip(i as int),
                self@.len() == self.tokens@.len(),
            decreases n - i,
        {
            let ghost prev = self@;
            let ghost prev_toks = self.tokens@;
            self.tokens.remove(0);
            assert(self.tokens@ =~= prev_toks.drop_first());
            assert(self@ =~= prev.drop_first());
            assert(old(self)@.skip(i as int).drop_first() =~= old(self)@.skip(i + 1));
            i = i + 1;
        }
        proof {
            if i < n {
                assert(self@.len() == 0);
                assert(old(self)@.skip(old(self)@.len() as int) =~= self@);
            }
        }
    }

    /// Whether the tokens from `offset` on start with ones fitting `specs`.
    pub fn has_seq_at(&self, specs: &[TokenSpec], offset: usize) -> (r: bool)
        ensures
            r == seq_at(self@, specs@, offset as int),
    {
        let n = self.tokens.len();
        if offset > n || specs.len() > n - offset {
            return false;
        }
        let mut i: usize = 0;
        while i < specs.len()
            invariant
                n == self.tokens@.len(),
                offset + specs@.len() <= self@.len(),
                self@.len() == self.tokens@.len(),
                0 <= i <= specs@.len(),
                forall|j: int| 0 <= j < i ==> fits(#[trigger] specs@[j], self@[offset + j].0, self@[offset + j].2),
            decreases specs@.len() - i,
        {
            if !specs[i].matches(&self.tokens[offset + i]) {
                return false;
            }
            i = i + 1;
        }
        true
    }

    /// Whether the tokens start with ones fitting `specs`.
    pub fn starts_with_seq(&self, specs: &[TokenSpec]) -> (r: bool)
        ensures
            r == seq_at(self@, specs@, 0),
    {
        self.has_seq_at(specs, 0)
    }

    /// Whether the current token has `kind`.
    pub fn current_is(&self, kind: TokenKind) -> (r: bool)
        ensures
            r == (self@.len() > 0 && self@[0].0 == kind),
    {
        self.tokens.len() > 0 && self.tokens[0].kind == kind
    }

    /// Whether the line starts with a token of `kind`.
    pub fn starts(&self, kind: TokenKind) -> (r: bool)
        ensures
            r == (self@.len() > 0 && self@[0].0 == kind),
    {
        self.current_is(kind)
    }

    /// Whether the line holds the tokens fitting `specs`, in a row, anywhere.
    pub fn contains_seq(&self, specs: &[TokenSpec]) -> (r: bool)
        ensures
            r == exists|o: int| 0 <= o <= self@.len() && #[trigger] seq_at(self@, specs@, o),
    {
        let mut o: usize = 0;
        loop
            invariant
                0 <= o <= self@.len(),
                self@.len() == self.tokens@.len(),
                forall|p: int| 0 <= p < o ==> !#[trigger] seq_at(self@, specs@, p),
            decreases self@.len() - o,
        {
            if self.has_seq_at(specs, o) {
                return true;
            }
            if o == self.tokens.len() {
                return false;
            }
            o = o + 1;
        }
    }

    /// Whether the line holds a token of `kind` that is `len` bytes long.
    pub fn contains_len(&self, kind: TokenKind, len: usize) -> (r: bool)
        ensures
            r == exists|i: int| 0 <= i < self@.len() && fits(TokenSpec::Len(len, kind), (#[trigger] self@[i]).0, self@[i].2),
    {
        let spec = TokenSpec::Len(len, kind);
        let mut i: usize = 0;
        while i < self.tokens.len()
            invariant
                0 <= i <= self@.len(),
                spec == TokenSpec::Len(len, kind),
                forall|j: int| 0 <= j < i ==> !fits(spec, (#[trigger] self@[j]).0, self@[j].2),
            decreases self@.len() - i,
        {
            if spec.matches(&self.tokens[i]) {
                assert(fits(spec, self@[i as int].0, self@[i as int].2));
                return true;
            }
            i = i + 1;
        }
        false
    }
}

/// Lines of a paragraph not yet consumed, in order.
#[derive(Debug)]
pub struct ContiguousLines {
    pub lines: Vec<Line>,
}

impl ContiguousLines {
    /// Whether any of the lines holds the tokens fitting `specs` in a row.
    pub fn contains_seq(&self, specs: &[TokenSpec]) -> (r: bool)
        ensures
            r == exists|k: int, o: int| 0 <= k < self.lines@.len() && 0 <= o <= self.lines@[k]@.len()
                && #[trigger] seq_at(self.lines@[k]@, specs@, o),
    {
        let mut k: usize = 0;
        while k < self.lines.len()
            invariant
                0 <= k <= self.lines@.len(),
                forall|j: int, o: int| 0 <= j < k && 0 <= o <= self.lines@[j]@.len() ==> !#[trigger] seq_at(self.lines@[j]@, specs@, o),
            decreases self.lines@.len() - k,
        {
            if self.lines[k].contains_seq(specs) {
                return true;
            }
            k = k + 1;
        }
        false
    }

    /// Whether any of the lines holds a token of `kind` that is `len` bytes
    /// long.
    pub fn contains_len(&self, kind: TokenKind, len: usize) -> (r: bool)
        ensures
            r == exists|k: int, i: int| 0 <= k < self.lines@.len() && 0 <= i < self.lines@[k]@.len()
                && fits(TokenSpec::Len(len, kind), (#[trigger] self.lines@[k]@[i]).0, self.lines@[k]@[i].2),
    {
        let mut k: usize = 0;
        while k < self.lines.len()
            invariant
                0 <= k <= self.lines@.len(),
                forall|j: int, i: int| 0 <= j < k && 0 <= i < self.lines@[j]@.len() ==> !fits(TokenSpec::Len(len, kind), (#[trigger] self.lines@[j]@[i]).0, self.lines@[j]@[i].2),
            decreases self.lines@.len() - k,
        {
            if self.lines[k].contains_len(kind, len) {
                return true;
            }
            k = k + 1;
        }
        false
    }

    pub fn is_empty(&self) -> (r: bool)
        ensures
            r == (self.lines@.len() == 0),
    {
        self.lines.len() == 0
    }
}

} // verus!
