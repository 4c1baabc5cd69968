use vstd::prelude::*;

use crate::text::{chars_of, str_eq};

verus! {

/// The lexical category of a token.
#[derive(Debug, PartialEq, Eq, Structural, Clone, Copy)]
pub enum TokenKind {
    Ampersand,
    AttrDef,
    AttrRef,
    Backtick,
    Backslash,
    Bang,
    CalloutNumber,
    Caret,
    CloseBrace,
    CloseBracket,
    CloseParens,
    Colon,
    Comma,
    CommentBlock,
    CommentLine,
    Dashes,
    DelimiterLine,
    Digits,
    Directive,
    Discard,
    DoubleQuote,
    Dots,
    EqualSigns,
    Eof,
    GreaterThan,
    Hash,
    LessThan,
    MacroName,
    MaybeEmail,
    Newline,
    OpenBrace,
    OpenBracket,
    OpenParens,
    Percent,
    Pipe,
    Plus,
    PreprocPassthru,
    SemiColon,
    SingleQuote,
    Star,
    TermDelimiter,
    Tilde,
    Underscore,
    UriScheme,
    Whitespace,
    Word,
}

/// A half-open byte range `start..end` within a source, tagged with the
/// depth of include nesting the source was read at.
#[derive(Debug, PartialEq, Eq, Structural, Clone, Copy)]
pub struct SourceLocation {
    pub start: u32,
    pub end: u32,
    pub include_depth: u16,
}

impl SourceLocation {
    pub fn new(start: u32, end: u32) -> (loc: SourceLocation)
        ensures
            loc == (SourceLocation { start, end, include_depth: 0 }),
    {
        SourceLocation { start, end, include_depth: 0 }
    }

    /// Widens the location to cover `other` as well.
    pub fn extend(&mut self, other: SourceLocation)
        ensures
            *final(self) == extended(*old(self), other),
    {
        if other.start < self.start {
            self.start = other.start;
        }
        if other.end > self.end {
            self.end = other.end;
        }
    }
}

/// A location widened to cover another one too.
pub open spec fn extended(loc: SourceLocation, other: SourceLocation) -> SourceLocation {
    SourceLocation {
        start: if other.start < loc.start {
            other.start
        } else {
            loc.start
        },
        end: if other.end > loc.end {
            other.end
        } else {
            loc.end
        },
        include_depth: loc.include_depth,
    }
}


/// A token: its kind, where it came from, and its source text.
#[derive(Debug)]
pub struct Token {
    pub kind: TokenKind,
    pub loc: SourceLocation,
    pub lexeme: String,
}

/// Source text together with its location.
#[derive(Debug)]
pub struct SourceString {
    pub src: String,
    pub loc: SourceLocation,
}

/// The URL schemes a macro name token can denote.
#[derive(Debug, PartialEq, Eq, Structural, Clone, Copy)]
pub enum UrlScheme {
    Https,
    Http,
    Ftp,
    Irc,
    Mailto,
}

/// The URL scheme a token of `kind` with text `lexeme` denotes, if any.
pub open spec fn url_scheme_of(kind: TokenKind, lexeme: Seq<char>) -> Option<UrlScheme> {
    if kind != TokenKind::MacroName {
        None
    } else if lexeme == "https:"@ {
        Some(UrlScheme::Https)
    } else if lexeme == "http:"@ {
        Some(UrlScheme::Http)
    } else if lexeme == "ftp:"@ {
        Some(UrlScheme::Ftp)
    } else if lexeme == "irc:"@ {
        Some(UrlScheme::Irc)
    } else if lexeme == "mailto:"@ {
        Some(UrlScheme::Mailto)
    } else {
        None
    }
}

impl Token {
    pub fn new(kind: TokenKind, loc: SourceLocation, lexeme: String) -> (t: Token)
        ensures
            t.kind == kind,
            t.loc == loc,
            t.lexeme@ == lexeme@,
    {
        Token { kind, loc, lexeme }
    }

    /// A copy of this token.
    pub fn duplicate(&self) -> (t: Token)
        ensures
            t.kind == self.kind,
            t.loc == self.loc,
            t.lexeme@ == self.lexeme@,
    {
        Token { kind: self.kind, loc: self.loc, lexeme: self.lexeme.clone() }
    }

    /// The token's text with its location.
    pub fn to_source_string(&self) -> (s: SourceString)
        ensures
            s.src@ == self.lexeme@,
            s.loc == self.loc,
    {
        SourceString { src: self.lexeme.clone(), loc: self.loc }
    }

    /// The URL scheme of a macro-name token such as `https:`.
    pub fn to_url_scheme(&self) -> (r: Option<UrlScheme>)
        ensures
            r == url_scheme_of(self.kind, self.lexeme@),
    {
        if self.kind != TokenKind::MacroName {
            return None;
        }
        let lx = self.lexeme.as_str();
        if str_eq(lx, "https:") {
            Some(UrlScheme::Https)
        } else if str_eq(lx, "http:") {
            Some(UrlScheme::Http)
        } else if str_eq(lx, "ftp:") {
            Some(UrlScheme::Ftp)
        } else if str_eq(lx, "irc:") {
            Some(UrlScheme::Irc)
        } else if str_eq(lx, "mailto:") {
            Some(UrlScheme::Mailto)
        } else {
            None
        }
    }

    /// Length of the token's text in bytes (UTF-8).
    pub fn len(&self) -> (n: usize)
        ensures
            n as nat == vstd::utf8::encode_utf8(self.lexeme@).len(),
    {
        self.lexeme.as_str().as_bytes().len()
    }

    /// The token's text as chars.
    pub fn chars(&self) -> (cs: Vec<char>)
        ensures
            cs@ == self.lexeme@,
    {
        chars_of(self.lexeme.as_str())
    }
}

/// Kind tests on tokens and on optional tokens.
pub trait TokenIs {
    /// Whether this is (or holds) a token of `kind`.
    spec fn kind_is(&self, kind: TokenKind) -> bool;

    /// Whether this is (or holds) a token denoting a URL scheme.
    spec fn denotes_url_scheme(&self) -> bool;

    fn is_url_scheme(&self) -> (r: bool)
        ensures
            r == self.denotes_url_scheme(),
    ;

    fn is(&self, kind: TokenKind) -> (r: bool)
        ensures
            r == self.kind_is(kind),
    ;

    fn is_not(&self, kind: TokenKind) -> (r: bool)
        ensures
            r == !self.kind_is(kind),
    {
        !self.is(kind)
    }
}

impl TokenIs for Token {
    open spec fn kind_is(&self, kind: TokenKind) -> bool {
        self.kind == kind
    }

    open spec fn denotes_url_scheme(&self) -> bool {
        url_scheme_of(self.kind, self.lexeme@) is Some
    }

    fn is(&self, kind: TokenKind) -> (r: bool) {
        self.kind == kind
    }

    fn is_url_scheme(&self) -> (r: bool) {
        self.to_url_scheme().is_some()
    }
}

impl<'a> TokenIs for Option<&'a Token> {
    open spec fn kind_is(&self, kind: TokenKind) -> bool {
        match *self {
            Some(t) => t.kind == kind,
            None => false,
        }
    }

    open spec fn denotes_url_scheme(&self) -> bool {
        match *self {
            Some(t) => url_scheme_of(t.kind, t.lexeme@) is Some,
            None => false,
        }
    }

    fn is(&self, kind: TokenKind) -> (r: bool) {
        match self {
            Some(t) => t.kind == kind,
            None => false,
        }
    }

    fn is_url_scheme(&self) -> (r: bool) {
        match self {
            Some(t) => t.to_url_scheme().is_some(),
            None => false,
        }
    }
}


/// UTF-8 length of a char.
pub fn char_len_utf8(c: char) -> (r: usize)
    ensures
        r == vstd::utf8::encode_scalar(c as u32).len(),
        1 <= r <= 4,
{
    let v = c as u32;
    if v < 0x80 {
        1
    } else if v < 0x800 {
        2
    } else if v < 0x10000 {
        3
    } else {
        4
    }
}

pub proof fn lemma_encode_utf8_push(s: Seq<char>, c: char)
    ensures
        vstd::utf8::encode_utf8(s.push(c)) == vstd::utf8::encode_utf8(s) + vstd::utf8::encode_scalar(
            c as u32,
        ),
    decreases s.len(),
{
    if s.len() == 0 {
        assert(s.push(c).drop_first() =~= Seq::<char>::empty());
        assert(vstd::utf8::encode_utf8(Seq::<char>::empty()) =~= Seq::<u8>::empty());
        assert(vstd::utf8::encode_utf8(s) =~= Seq::<u8>::empty());
        assert(vstd::utf8::encode_utf8(s.push(c)) =~= vstd::utf8::encode_scalar(c as u32));
    } else {
        lemma_encode_utf8_push(s.drop_first(), c);
        assert(s.push(c).drop_first() =~= s.drop_first().push(c));
        assert(vstd::utf8::encode_utf8(s.push(c)) =~= vstd::utf8::encode_scalar(s[0] as u32)
            + vstd::utf8::encode_utf8(s.drop_first().push(c)));
    }
}

/// Byte length of the first `k` chars is strictly increasing in `k`.
pub proof fn lemma_prefix_bytes_increasing(s: Seq<char>, j: int, k: int)
    requires
        0 <= j < k <= s.len(),
    ensures
        vstd::utf8::encode_utf8(s.take(j)).len() < vstd::utf8::encode_utf8(s.take(k)).len(),
    decreases k - j,
{
    assert(s.take(k) =~= s.take(k - 1).push(s[k - 1]));
    lemma_encode_utf8_push(s.take(k - 1), s[k - 1]);
    let w = vstd::utf8::encode_scalar(s[k - 1] as u32).len();
    assert(w >= 1);
    if j < k - 1 {
        lemma_prefix_bytes_increasing(s, j, k - 1);
    }
}

/// The number of chars whose UTF-8 bytes make up the first `n` bytes of
/// `s`, found by walking the chars.
pub fn chars_in_bytes(cs: &[char], n: usize) -> (k: usize)
    requires
        exists|k: int| 0 <= k <= cs@.len() && vstd::utf8::encode_utf8(cs@.take(k)).len() == n,
    ensures
        k <= cs@.len(),
        vstd::utf8::encode_utf8(cs@.take(k as int)).len() == n,
{
    let ghost target = choose|k: int| 0 <= k <= cs@.len() && vstd::utf8::encode_utf8(cs@.take(k)).len() == n;
    let mut acc: usize = 0;
    let mut k: usize = 0;
    assert(cs@.take(0) =~= Seq::<char>::empty());
    assert(vstd::utf8::encode_utf8(Seq::<char>::empty()) =~= Seq::<u8>::empty());
    while acc < n
        invariant
            0 <= k <= target,
            0 <= target <= cs@.len(),
            vstd::utf8::encode_utf8(cs@.take(target)).len() == n,
            acc == vstd::utf8::encode_utf8(cs@.take(k as int)).len(),
            acc <= n,
        decreases target - k,
    {
        proof {
            if k == target {
                assert(false);
            }
        }
        let w = char_len_utf8(cs[k]);
        proof {
            assert(cs@.take(k + 1) =~= cs@.take(k as int).push(cs@[k as int]));
            lemma_encode_utf8_push(cs@.take(k as int), cs@[k as int]);
            if k + 1 < target {
                lemma_prefix_bytes_increasing(cs@, k + 1, target);
            }
        }
        acc = acc + w;
        k = k + 1;
    }
    k
}

impl Token {
    /// Drops the first `n` bytes of the token's text, moving its start.
    pub fn drop_leading_bytes(&mut self, n: u32)
        requires
            exists|k: int| 0 <= k <= old(self).lexeme@.len() && vstd::utf8::encode_utf8(old(self).lexeme@.take(k)).len() == n,
            old(self).loc.start + n <= u32::MAX,
        ensures
            forall|k: int| 0 <= k <= old(self).lexeme@.len() && vstd::utf8::encode_utf8(old(self).lexeme@.take(k)).len() == n
                ==> final(self).lexeme@ == old(self).lexeme@.skip(k),
            final(self).kind == old(self).kind,
            final(self).loc == (SourceLocation { start: (old(self).loc.start + n) as u32, ..old(self).loc }),
    {
        let cs = chars_of(self.lexeme.as_str());
        let k = chars_in_bytes(cs.as_slice(), n as usize);
        let rest = crate::text::string_of(&cs.as_slice()[k..cs.len()]);
        proof {
            assert forall|j: int| 0 <= j <= cs@.len() && vstd::utf8::encode_utf8(cs@.take(j)).len() == n implies j == k by {
                if j < k {
                    lemma_prefix_bytes_increasing(cs@, j, k as int);
                } else if j > k {
                    lemma_prefix_bytes_increasing(cs@, k as int, j);
                }
            }
        }
        self.lexeme = rest;
        self.loc.start = self.loc.start + n;
    }
}


/// The bytes of a char prefix are no more than those of the whole.
pub proof fn lemma_prefix_bytes_le(s: Seq<char>, k: int)
    requires
        0 <= k <= s.len(),
    ensures
        vstd::utf8::encode_utf8(s.take(k)).len() <= vstd::utf8::encode_utf8(s).len(),
{
    if k < s.len() {
        lemma_prefix_bytes_increasing(s, k, s.len() as int);
    }
    assert(s.take(s.len() as int) =~= s);
}

} // verus!
