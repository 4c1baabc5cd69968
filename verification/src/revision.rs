//! The revision line under a document's author line:
//! `v7.5, 1-29-2020: A new analysis` sets `revnumber`, `revdate` and
//! `revremark`.
use vstd::prelude::*;
use vstd::string::StringExecFns;

use crate::attrs::{lookup, AttrValue, AttrValueV};
use crate::parser::Parser;
use crate::rx::group_of;
use crate::token::TokenKind;

verus! {

/// Version (group 1), date after a comma (2), remark after a colon (3).
pub open spec fn revision_pattern() -> Seq<char> {
    r"^([^\s,:]+)(?:,\s*([^:]+?))?(?::\s*(.+))?$"@
}

/// The version number: from the first digit on.
pub open spec fn version_pattern() -> Seq<char> {
    r"\d.*$"@
}

/// A version alone must be `v` then a digit and more.
pub open spec fn lone_version_pattern() -> Seq<char> {
    r"^v(\d[^\s]+)$"@
}

/// What a revision line sets.
pub struct RevisionV {
    pub number: Option<Seq<char>>,
    pub date: Option<Seq<char>>,
    pub remark: Option<Seq<char>>,
}

pub open spec fn has_ascii_digit(s: Seq<char>) -> bool {
    exists|i: int| 0 <= i < s.len() && crate::text::is_digit(#[trigger] s[i])
}

/// The match of a compiled pattern, if both.
pub open spec fn matched(pattern: Seq<char>, text: Seq<char>) -> Option<Seq<Option<Seq<char>>>> {
    if crate::rx::regex_compiles(pattern) {
        crate::rx::regex_captures(pattern, text)
    } else {
        None
    }
}

/// The revision a line states, `None` when it is no revision line: the
/// version part must hold a digit. A version alone counts only in the form
/// `v1.2` (the line is taken either way).
pub open spec fn revision_of(src: Seq<char>) -> Option<RevisionV> {
    match matched(revision_pattern(), src) {
        None => None,
        Some(gs) => match group_of(gs, 1) {
            None => None,
            Some(raw) => if !has_ascii_digit(raw) {
                None
            } else {
                match matched(version_pattern(), raw) {
                    None => None,
                    Some(vg) => match group_of(vg, 0) {
                        None => None,
                        Some(version) => {
                            let date = group_of(gs, 2);
                            let remark = group_of(gs, 3);
                            if date is None && remark is None {
                                Some(
                                    RevisionV {
                                        number: if matched(lone_version_pattern(), raw) is Some {
                                            Some(version)
                                        } else {
                                            None
                                        },
                                        date: None,
                                        remark: None,
                                    },
                                )
                            } else {
                                Some(RevisionV { number: Some(version), date, remark })
                            }
                        },
                    },
                }
            },
        },
    }
}

fn match_groups(pattern: &str, text: &str) -> (r: Option<Vec<Option<String>>>)
    ensures
        match matched(pattern@, text@) {
            Some(gs) => r matches Some(v) && crate::rx::groups_view(v@) == gs,
            None => r is None,
        },
{
    if !crate::rx::compiles(pattern) {
        return None;
    }
    match crate::rx::captures(pattern, text) {
        Some(v) => {
            proof {
                crate::rx::lemma_groups_view(v@, crate::rx::regex_captures(pattern@, text@)->0);
            }
            Some(v)
        },
        None => None,
    }
}

fn group_string(gs: &Vec<Option<String>>, i: usize) -> (r: Option<String>)
    ensures
        match group_of(crate::rx::groups_view(gs@), i as int) {
            Some(g) => r matches Some(s) && s@ == g,
            None => r is None,
        },
{
    match crate::rx::group(gs, i) {
        Some(s) => Some(s.clone()),
        None => None,
    }
}

fn any_ascii_digit(s: &str) -> (r: bool)
    ensures
        r == has_ascii_digit(s@),
{
    let cs = crate::text::chars_of(s);
    let mut i: usize = 0;
    while i < cs.len()
        invariant
            0 <= i <= cs@.len(),
            cs@ == s@,
            forall|j: int| 0 <= j < i ==> !crate::text::is_digit(#[trigger] cs@[j]),
        decreases cs@.len() - i,
    {
        if '0' <= cs[i] && cs[i] <= '9' {
            assert(crate::text::is_digit(s@[i as int]));
            return true;
        }
        i = i + 1;
    }
    false
}

/// The revision a line states.
pub fn revision_from(src: &str) -> (r: Option<(Option<String>, Option<String>, Option<String>)>)
    ensures
        match revision_of(src@) {
            Some(rv) => r matches Some(t) && crate::text::opt_string_view(t.0) == rv.number
                && crate::text::opt_string_view(t.1) == rv.date && crate::text::opt_string_view(t.2)
                == rv.remark,
            None => r is None,
        },
{
    let gs = match match_groups(r"^([^\s,:]+)(?:,\s*([^:]+?))?(?::\s*(.+))?$", src) {
        Some(g) => g,
        None => return None,
    };
    let raw = match group_string(&gs, 1) {
        Some(s) => s,
        None => return None,
    };
    if !any_ascii_digit(raw.as_str()) {
        return None;
    }
    let vg = match match_groups(r"\d.*$", raw.as_str()) {
        Some(g) => g,
        None => return None,
    };
    let version = match group_string(&vg, 0) {
        Some(v) => v,
        None => return None,
    };
    let date = group_string(&gs, 2);
    let remark = group_string(&gs, 3);
    if date.is_none() && remark.is_none() {
        let lone = match_groups(r"^v(\d[^\s]+)$", raw.as_str()).is_some();
        return Some((if lone { Some(version) } else { None }, None, None));
    }
    Some((Some(version), date, remark))
}

/// An attribute table after a revision's parts are set.
pub open spec fn attrs_after_revision(
    attrs: Seq<(Seq<char>, AttrValueV)>,
    rv: RevisionV,
    key: Seq<char>,
) -> Option<AttrValueV> {
    if key == "revnumber"@ && rv.number is Some {
        Some(AttrValueV::String(rv.number->0))
    } else if key == "revdate"@ && rv.date is Some {
        Some(AttrValueV::String(rv.date->0))
    } else if key == "revremark"@ && rv.remark is Some {
        Some(AttrValueV::String(rv.remark->0))
    } else {
        lookup(attrs, key)
    }
}

impl Parser {
    /// Reads a revision line (whose first token is of `first_kind` and
    /// whose source text is `src`) into the header attributes. Gives the
    /// line's end (`end`) when the line was taken.
    pub fn parse_revision_line(&mut self, first_kind: TokenKind, src: &str, end: u32) -> (r: Option<u32>)
        ensures
            ({
                let taken = (first_kind == TokenKind::Word || first_kind == TokenKind::Digits) && revision_of(
                    src@,
                ) is Some;
                &&& taken ==> r == Some(end) && forall|k: Seq<char>| lookup(final(self).attrs@, k)
                    == attrs_after_revision(old(self).attrs@, revision_of(src@)->0, k)
                &&& !taken ==> r is None && final(self).attrs@ == old(self).attrs@
            }),
            final(self).leveloffset == old(self).leveloffset,
            final(self).anchor_ids@ == old(self).anchor_ids@,
    {
        if !(first_kind == TokenKind::Word || first_kind == TokenKind::Digits) {
            return None;
        }
        let (number, date, remark) = match revision_from(src) {
            Some(t) => t,
            None => return None,
        };
        let ghost a0 = self.attrs@;
        let ghost rv = revision_of(src@)->0;
        proof {
            reveal_strlit("revnumber");
            reveal_strlit("revdate");
            reveal_strlit("revremark");
            assert("revnumber"@[3] != "revdate"@[3]);
            assert("revnumber"@[3] != "revremark"@[3]);
            assert("revnumber"@ != "revdate"@);
            assert("revnumber"@ != "revremark"@);
            assert("revdate"@ != "revremark"@);
        }
        assert(crate::text::opt_string_view(number) == rv.number);
        assert(crate::text::opt_string_view(date) == rv.date);
        assert(crate::text::opt_string_view(remark) == rv.remark);
        if let Some(n) = number {
            self.attrs.insert(String::from_str("revnumber"), AttrValue::String(n));
        }
        assert(forall|k: Seq<char>| k != "revnumber"@ ==> lookup(self.attrs@, k) == lookup(a0, k));
        assert(rv.number is Some ==> lookup(self.attrs@, "revnumber"@) == Some(AttrValueV::String(rv.number->0)));
        assert(rv.number is None ==> self.attrs@ == a0);
        let ghost a1 = self.attrs@;
        if let Some(d) = date {
            self.attrs.insert(String::from_str("revdate"), AttrValue::String(d));
        }
        assert(forall|k: Seq<char>| k != "revdate"@ ==> lookup(self.attrs@, k) == lookup(a1, k));
        assert(rv.date is Some ==> lookup(self.attrs@, "revdate"@) == Some(AttrValueV::String(rv.date->0)));
        assert(rv.date is None ==> self.attrs@ == a1);
        let ghost a2 = self.attrs@;
        if let Some(m) = remark {
            self.attrs.insert(String::from_str("revremark"), AttrValue::String(m));
        }
        assert(forall|k: Seq<char>| k != "revremark"@ ==> lookup(self.attrs@, k) == lookup(a2, k));
        assert(rv.remark is Some ==> lookup(self.attrs@, "revremark"@) == Some(AttrValueV::String(rv.remark->0)));
        assert(rv.remark is None ==> self.attrs@ == a2);
        assert forall|k: Seq<char>| lookup(self.attrs@, k) == attrs_after_revision(a0, rv, k) by {
            if k == "revnumber"@ {
            } else if k == "revdate"@ {
            } else if k == "revremark"@ {
            } else {
            }
        }
        Some(end)
    }
}

} // verus!
