//! The author line under a document title:
//! `Bob L. Foo <bob@foo.com>; Bob Thomas Baz`.
use vstd::prelude::*;
use vstd::string::StringExecFns;

use crate::parser::Parser;
use crate::rx::group_of;

verus! {

/// A document author.
#[derive(Debug, Clone, PartialEq, Eq)]
pub struct Author {
    pub first_name: String,
    pub middle_name: Option<String>,
    pub last_name: String,
    pub email: Option<String>,
}

pub struct AuthorV {
    pub first_name: Seq<char>,
    pub middle_name: Option<Seq<char>>,
    pub last_name: Seq<char>,
    pub email: Option<Seq<char>>,
}

impl View for Author {
    type V = AuthorV;

    open spec fn view(&self) -> AuthorV {
        AuthorV {
            first_name: self.first_name@,
            middle_name: crate::text::opt_string_view(self.middle_name),
            last_name: self.last_name@,
            email: crate::text::opt_string_view(self.email),
        }
    }
}

pub open spec fn authors_view(v: Seq<Author>) -> Seq<AuthorV> {
    v.map_values(|a: Author| a@)
}

/// One author: first name (group 1), middle names (3), last name (5) and
/// an email in angle brackets (6), entries separated by `;`.
pub open spec fn author_pattern() -> Seq<char> {
    r"([^\s<]+\b)(\s+([^<;]+\b))*(\s*([^\s<;]+))(?:\s+<([^\s>@]+@[^\s>]+)>)?(\s*;\s*)?"@
}

/// The author a match describes; the middle names lose trailing
/// whitespace. (The pattern always captures groups 1 and 5.)
pub open spec fn author_of(gs: Seq<Option<Seq<char>>>) -> AuthorV {
    AuthorV {
        first_name: match group_of(gs, 1) {
            Some(g) => g,
            None => Seq::empty(),
        },
        middle_name: match group_of(gs, 3) {
            Some(g) => Some(crate::text::trim_end(g)),
            None => None,
        },
        last_name: match group_of(gs, 5) {
            Some(g) => g,
            None => Seq::empty(),
        },
        email: group_of(gs, 6),
    }
}

/// The matches of the author pattern in a line (trailing whitespace
/// dropped).
pub open spec fn author_matches(src: Seq<char>) -> Seq<(int, int, Seq<Option<Seq<char>>>)> {
    if crate::rx::regex_compiles(author_pattern()) {
        crate::rx::regex_captures_all(author_pattern(), crate::text::trim_end(src))
    } else {
        Seq::empty()
    }
}

/// The smallest start among the matches.
pub open spec fn min_start(ms: Seq<(int, int, Seq<Option<Seq<char>>>)>) -> int
    decreases ms.len(),
{
    if ms.len() == 0 {
        usize::MAX as int
    } else {
        let rest = min_start(ms.drop_last());
        if ms.last().0 < rest {
            ms.last().0
        } else {
            rest
        }
    }
}

/// Whether the matches fail to cover the whole line: none at all, text
/// before the first, or text after the last.
pub open spec fn author_line_invalid(src: Seq<char>) -> bool {
    let ms = author_matches(src);
    ms.len() == 0 || min_start(ms) > 0 || ms.last().1 < crate::line::byte_len(crate::text::trim_end(src))
}

pub open spec fn invalid_author_message() -> Seq<char> {
    "invalid author line"@
}

fn string_or_empty(o: Option<String>) -> (r: String)
    ensures
        r@ == match crate::text::opt_string_view(o) {
            Some(s) => s,
            None => Seq::<char>::empty(),
        },
{
    match o {
        Some(s) => s,
        None => {
            let e = String::from_str("");
            proof {
                reveal_strlit("");
            }
            e
        },
    }
}

fn group_owned(gs: &Vec<Option<String>>, i: usize) -> (r: Option<String>)
    ensures
        crate::text::opt_string_view(r) == group_of(crate::rx::groups_view(gs@), i as int),
{
    match crate::rx::group(gs, i) {
        Some(s) => Some(s.clone()),
        None => None,
    }
}

impl Parser {
    /// The author a match describes.
    pub fn author_from(&self, gs: &Vec<Option<String>>) -> (r: Author)
        ensures
            r@ == author_of(crate::rx::groups_view(gs@)),
    {
        let first_name = string_or_empty(group_owned(gs, 1));
        let middle_name = match group_owned(gs, 3) {
            Some(m) => {
                let cs = crate::text::chars_of(m.as_str());
                let b = crate::text::trim_end_len(cs.as_slice());
                let kept = crate::text::string_of(&cs.as_slice()[0..b]);
                Some(kept)
            },
            None => None,
        };
        let last_name = string_or_empty(group_owned(gs, 5));
        let email = group_owned(gs, 6);
        Author { first_name, middle_name, last_name, email }
    }
}

impl Parser {
    /// Reads the author line (its source text) into the document's
    /// authors; reports `invalid author line` when the authors found do not
    /// make up the whole line.
    pub fn parse_author_line(&mut self, src: &str)
        ensures
            authors_view(final(self).authors@) == authors_view(old(self).authors@) + author_matches(src@).map_values(
                |m: (int, int, Seq<Option<Seq<char>>>)| author_of(m.2),
            ),
            final(self).errors@.map_values(|e: String| e@) == if author_line_invalid(src@) {
                old(self).errors@.map_values(|e: String| e@).push(invalid_author_message())
            } else {
                old(self).errors@.map_values(|e: String| e@)
            },
            final(self).attrs@ == old(self).attrs@,
    {
        let pattern = r"([^\s<]+\b)(\s+([^<;]+\b))*(\s*([^\s<;]+))(?:\s+<([^\s>@]+@[^\s>]+)>)?(\s*;\s*)?";
        let cs = crate::text::chars_of(src);
        let n = crate::text::trim_end_len(cs.as_slice());
        let trimmed = crate::text::string_of(&cs.as_slice()[0..n]);
        let ghost t = trimmed@;
        let ms: Vec<(usize, usize, Vec<Option<String>>)> = if crate::rx::compiles(pattern) {
            crate::rx::captures_all(pattern, trimmed.as_str())
        } else {
            Vec::new()
        };
        let ghost all = author_matches(src@);
        assert(ms@.len() == all.len());
        let ghost a0 = self.authors@;
        let mut first_start: usize = usize::MAX;
        let mut last_end: usize = 0;
        let mut i: usize = 0;
        while i < ms.len()
            invariant
                0 <= i <= ms@.len(),
                ms@.len() == all.len(),
                forall|j: int|
                    0 <= j < ms@.len() ==> (#[trigger] ms@[j]).0 as int == all[j].0 && ms@[j].1 as int == all[j].1
                        && crate::rx::groups_view(ms@[j].2@) == all[j].2,
                first_start as int == min_start(all.take(i as int)),
                i > 0 ==> last_end as int == all[i - 1].1,
                authors_view(self.authors@) == authors_view(a0) + all.take(i as int).map_values(
                    |m: (int, int, Seq<Option<Seq<char>>>)| author_of(m.2),
                ),
                self.errors@ == old(self).errors@,
                self.attrs@ == old(self).attrs@,
            decreases ms@.len() - i,
        {
            proof {
                assert(all.take(i + 1).drop_last() =~= all.take(i as int));
            }
            let (start, end) = (ms[i].0, ms[i].1);
            if start < first_start {
                first_start = start;
            }
            last_end = end;
            let author = self.author_from(&ms[i].2);
            let ghost before = self.authors@;
            self.authors.push(author);
            proof {
                assert(authors_view(self.authors@) =~= authors_view(before).push(author@));
                assert(all.take(i + 1).map_values(|m: (int, int, Seq<Option<Seq<char>>>)| author_of(m.2)) =~= all.take(
                    i as int,
                ).map_values(|m: (int, int, Seq<Option<Seq<char>>>)| author_of(m.2)).push(author_of(all[i as int].2)));
            }
            i = i + 1;
        }
        assert(all.take(i as int) =~= all);
        let num_bytes = trimmed.as_str().as_bytes().len();
        if first_start == usize::MAX || first_start > 0 || last_end < num_bytes {
            let ghost before = self.errors@;
            self.errors.push(String::from_str("invalid author line"));
            assert(self.errors@.map_values(|e: String| e@) =~= before.map_values(|e: String| e@).push(
                invalid_author_message(),
            ));
        }
    }
}

} // verus!
