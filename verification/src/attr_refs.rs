//! Attribute references (`{name}`) met while a line is read: kept, replaced
//! by the attribute's value, or handled as `attribute-missing` says.
use vstd::prelude::*;
use vstd::string::StringExecFns;

use crate::attrs::{lookup, AttrValue, AttrValueV};
use crate::line::{token_view, Line};
use crate::parser::Parser;
use crate::token::{Token, TokenKind};

verus! {

/// The name an attribute reference token refers to: its text inside the
/// braces.
pub open spec fn ref_name(lexeme: Seq<char>) -> Seq<char> {
    lexeme.subrange(1, lexeme.len() - 1)
}

/// An attribute reference token's text: a name in braces.
pub open spec fn braced(lexeme: Seq<char>) -> bool {
    lexeme.len() >= 2 && lexeme[0] == '{' && lexeme[lexeme.len() - 1] == '}'
}

/// What becomes of a token met while a line is read.
pub enum AttrRefOutcome {
    /// The token joins the line as it is.
    Keep,
    /// The token joins the line and the attribute's value is read in its
    /// place.
    KeepAndRead(Seq<char>),
    /// The token is dropped.
    Drop,
    /// The token is dropped with the whole line.
    DropLine,
    /// The token joins the line as a plain word; `true` where a warning is
    /// reported.
    KeepAsWord(bool),
}

/// What becomes of a token of `kind` and text `lexeme`. Only attribute
/// references are touched, and only while attribute references are
/// substituted (`attr_refs`). A reference to a string attribute reads the
/// value in its place (nothing where it is empty); for any other one the
/// `attribute-missing` attribute decides: `drop` drops the token,
/// `drop-line` the line, and otherwise the reference stays as text, with a
/// warning where it is `warn`.
pub open spec fn attr_ref_outcome(
    attrs: Seq<(Seq<char>, AttrValueV)>,
    kind: TokenKind,
    lexeme: Seq<char>,
    attr_refs: bool,
) -> AttrRefOutcome {
    if kind != TokenKind::AttrRef || !attr_refs {
        AttrRefOutcome::Keep
    } else {
        match lookup(attrs, ref_name(lexeme)) {
            Some(AttrValueV::String(v)) => if v.len() > 0 {
                AttrRefOutcome::KeepAndRead(v)
            } else {
                AttrRefOutcome::Keep
            },
            _ => match lookup(attrs, "attribute-missing"@) {
                Some(AttrValueV::String(m)) => if m == "drop"@ {
                    AttrRefOutcome::Drop
                } else if m == "drop-line"@ {
                    AttrRefOutcome::DropLine
                } else {
                    AttrRefOutcome::KeepAsWord(m == "warn"@)
                },
                _ => AttrRefOutcome::KeepAsWord(false),
            },
        }
    }
}

/// The message reported for a reference to a missing attribute.
pub open spec fn missing_attr_message() -> Seq<char> {
    "Skipping reference to missing attribute"@
}

impl Line {
    /// Appends a token.
    pub fn push(&mut self, t: Token)
        ensures
            final(self)@ == old(self)@.push(token_view(t)),
    {
        let ghost before = self.tokens@;
        self.tokens.push(t);
        assert(self@ =~= crate::line::tokens_view(before).push(token_view(t)));
    }
}

/// Whether the chars of a string equal a literal's.
fn is_str(s: &String, lit: &str) -> (r: bool)
    ensures
        r == (s@ == lit@),
{
    crate::text::str_eq(s.as_str(), lit)
}

impl Parser {
    /// Adds a token met while reading a line to `line`, handling an
    /// attribute reference as `attr_ref_outcome` says: the value to read in
    /// its place is returned, a dropped line is flagged in `drop_line`, and
    /// a warning goes to the errors.
    pub fn push_token_replacing_attr_ref(
        &mut self,
        token: Token,
        line: &mut Line,
        drop_line: &mut bool,
        attr_refs: bool,
    ) -> (r: Option<String>)
        requires
            token.kind == TokenKind::AttrRef ==> braced(token.lexeme@),
        ensures
            final(self).attrs == old(self).attrs,
            match attr_ref_outcome(old(self).attrs@, token.kind, token.lexeme@, attr_refs) {
                AttrRefOutcome::Keep => r is None && final(line)@ == old(line)@.push(token_view(token))
                    && *final(drop_line) == *old(drop_line) && final(self).errors@ == old(self).errors@,
                AttrRefOutcome::KeepAndRead(v) => r matches Some(s) && s@ == v
                    && final(line)@ == old(line)@.push(token_view(token))
                    && *final(drop_line) == *old(drop_line) && final(self).errors@ == old(self).errors@,
                AttrRefOutcome::Drop => r is None && final(line)@ == old(line)@
                    && *final(drop_line) == *old(drop_line) && final(self).errors@ == old(self).errors@,
                AttrRefOutcome::DropLine => r is None && final(line)@ == old(line)@
                    && *final(drop_line) && final(self).errors@ == old(self).errors@,
                AttrRefOutcome::KeepAsWord(warn) => r is None
                    && final(line)@ == old(line)@.push((TokenKind::Word, token.loc, token.lexeme@))
                    && *final(drop_line) == *old(drop_line)
                    && final(self).errors@ == (if warn {
                        old(self).errors@.push(final(self).errors@.last())
                    } else {
                        old(self).errors@
                    })
                    && (warn ==> final(self).errors@.last()@ == missing_attr_message()),
            },
    {
        if token.kind != TokenKind::AttrRef || !attr_refs {
            line.push(token);
            return None;
        }
        let cs = crate::text::chars_of(token.lexeme.as_str());
        let name = crate::text::string_of(&cs.as_slice()[1..cs.len() - 1]);
        assert(cs@.subrange(1, cs@.len() - 1) =~= ref_name(token.lexeme@));
        let found = match self.attrs.get(name.as_str()) {
            Some(AttrValue::String(v)) => Some(v.clone()),
            _ => None,
        };
        if let Some(v) = found {
            line.push(token);
            proof {
                reveal_strlit("");
                if v@.len() == 0 {
                    assert(v@ =~= ""@);
                }
            }
            if is_str(&v, "") {
                return None;
            }
            return Some(v);
        }
        let missing = match self.attrs.get("attribute-missing") {
            Some(AttrValue::String(m)) => Some(m.clone()),
            _ => None,
        };
        let mut warn = false;
        match missing {
            Some(m) => {
                if is_str(&m, "drop") {
                    return None;
                } else if is_str(&m, "drop-line") {
                    *drop_line = true;
                    return None;
                }
                warn = is_str(&m, "warn");
            },
            None => {},
        }
        let word = Token::new(TokenKind::Word, token.loc, token.lexeme);
        if warn {
            self.errors.push(String::from_str("Skipping reference to missing attribute"));
        }
        line.push(word);
        None
    }
}

} // verus!
