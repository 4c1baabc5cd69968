//! The attributes that describe the document's own file: `docname`,
//! `docfilesuffix`, `docfile`, `docdir` and `asciidork-docfilename`.
use vstd::prelude::*;
use vstd::string::StringExecFns;

use crate::attrs::{attrs_set_to, insert_job_attrs};
use crate::include_directive::{dirname, SafeMode};
use crate::parser::Parser;

verus! {

/// Where the document being parsed comes from.
#[derive(Debug)]
pub enum SourceFile {
    /// Standard input.
    Stdin,
    /// A file, by its path.
    Path(String),
    /// A temporary buffer.
    Tmp,
}

/// The index of the last `c` in `s`, if any.
pub open spec fn last_index(s: Seq<char>, c: char) -> Option<int>
    decreases s.len(),
{
    if s.len() == 0 {
        None
    } else if s.last() == c {
        Some(s.len() - 1)
    } else {
        last_index(s.drop_last(), c)
    }
}

/// The last component of a path: what follows its last `/`.
pub open spec fn file_name(p: Seq<char>) -> Seq<char> {
    match last_index(p, '/') {
        Some(i) => p.skip(i + 1),
        None => p,
    }
}

/// A file name's extension: from its last `.` on, dot included; empty
/// without one.
pub open spec fn file_suffix(p: Seq<char>) -> Seq<char> {
    let n = file_name(p);
    match last_index(n, '.') {
        Some(i) => n.skip(i),
        None => Seq::empty(),
    }
}

/// A file name without its extension.
pub open spec fn file_stem(p: Seq<char>) -> Seq<char> {
    let n = file_name(p);
    match last_index(n, '.') {
        Some(i) => n.take(i),
        None => n,
    }
}

/// The attributes written for a document read from the file at `path`: its
/// name parts, and its path and directory unless the safe mode is `server`
/// or `secure`, where both are empty.
pub open spec fn source_file_entries(path: Seq<char>, mode: SafeMode) -> Seq<(Seq<char>, Seq<char>)> {
    let hidden = mode == SafeMode::Server || mode == SafeMode::Secure;
    seq![
        ("docfilesuffix"@, file_suffix(path)),
        ("docname"@, file_stem(path)),
        ("asciidork-docfilename"@, file_stem(path) + file_suffix(path)),
        ("docfile"@, if hidden { Seq::empty() } else { path }),
        ("docdir"@, if hidden { Seq::empty() } else { dirname(path) }),
    ]
}

/// The index of the last `c` in `s`, if any.
fn find_last(s: &[char], c: char) -> (r: Option<usize>)
    ensures
        match r {
            Some(i) => last_index(s@, c) == Some(i as int) && i < s@.len(),
            None => last_index(s@, c) is None,
        },
{
    let mut k = s.len();
    assert(s@.take(k as int) =~= s@);
    while k > 0
        invariant
            k <= s@.len(),
            last_index(s@, c) == last_index(s@.take(k as int), c),
        decreases k,
    {
        if s[k - 1] == c {
            assert(s@.take(k as int).last() == c);
            return Some(k - 1);
        }
        assert(s@.take(k as int).drop_last() =~= s@.take(k - 1));
        k = k - 1;
    }
    assert(s@.take(0) =~= Seq::<char>::empty());
    None
}

/// The chars `s[a..b]` as a `String`.
fn slice_string(s: &[char], a: usize, b: usize) -> (r: String)
    requires
        a <= b <= s@.len(),
    ensures
        r@ == s@.subrange(a as int, b as int),
{
    crate::text::string_of(&s[a..b])
}

impl Parser {
    /// Writes the attributes that describe the document's own file, for a
    /// document read from a file; a document from standard input or a
    /// temporary buffer gets none.
    pub fn set_source_file_attrs(&mut self, source: &SourceFile, safe_mode: SafeMode)
        ensures
            match source {
                SourceFile::Path(p) => attrs_set_to(
                    old(self).attrs@,
                    final(self).attrs@,
                    source_file_entries(p@, safe_mode),
                ),
                _ => final(self).attrs@ == old(self).attrs@,
            },
            final(self).errors == old(self).errors,
            final(self).anchor_ids == old(self).anchor_ids,
    {
        let path = match source {
            SourceFile::Path(p) => p,
            _ => {
                return;
            },
        };
        let cs = crate::text::chars_of(path.as_str());
        let n = cs.len();
        let slash = find_last(cs.as_slice(), '/');
        let start = match slash {
            Some(i) => i + 1,
            None => 0,
        };
        let name = slice_string(cs.as_slice(), start, n);
        let ns = crate::text::chars_of(name.as_str());
        assert(ns@ == file_name(path@)) by {
            assert(cs@ == path@);
            assert(ns@ == name@);
            assert(name@ == cs@.subrange(start as int, n as int));
            match slash {
                Some(i) => {
                    assert(last_index(cs@, '/') == Some(i as int));
                    assert(cs@.subrange(start as int, n as int) =~= cs@.skip(i + 1));
                },
                None => {
                    assert(cs@.subrange(0, n as int) =~= cs@);
                },
            }
        }
        let (stem, suffix) = match find_last(ns.as_slice(), '.') {
            Some(i) => {
                assert(ns@.subrange(0, i as int) =~= ns@.take(i as int));
                assert(ns@.subrange(i as int, ns@.len() as int) =~= ns@.skip(i as int));
                (slice_string(ns.as_slice(), 0, i), slice_string(ns.as_slice(), i, ns.len()))
            },
            None => {
                assert(ns@.subrange(0, ns@.len() as int) =~= ns@);
                (String::from_str(name.as_str()), String::new())
            },
        };
        let file_name_s = String::from_str(stem.as_str()).concat(suffix.as_str());
        let hidden = match safe_mode {
            SafeMode::Server | SafeMode::Secure => true,
            _ => false,
        };
        let (docfile, docdir) = if hidden {
            (String::new(), String::new())
        } else {
            let dir = crate::include_directive::dir_of(&cs);
            (String::from_str(path.as_str()), crate::text::string_of(dir.as_slice()))
        };
        proof {
            reveal_strlit("docfilesuffix");
            reveal_strlit("docname");
            reveal_strlit("asciidork-docfilename");
            reveal_strlit("docfile");
            reveal_strlit("docdir");
        }
        let entries = vec![
            (String::from_str("docfilesuffix"), suffix),
            (String::from_str("docname"), stem),
            (String::from_str("asciidork-docfilename"), file_name_s),
            (String::from_str("docfile"), docfile),
            (String::from_str("docdir"), docdir),
        ];
        let ghost got = entries@.map_values(|e: (String, String)| (e.0@, e.1@));
        let ghost expected = source_file_entries(path@, safe_mode);
        assert(got.len() == 5);
        assert(got[0] == expected[0]);
        assert(got[1] == expected[1]);
        assert(got[2] == expected[2]);
        assert(got[3] == expected[3]);
        assert(got[4] == expected[4]);
        assert(got =~= expected);
        assert forall|i: int, j: int| 0 <= i < j < entries@.len() implies
            (#[trigger] entries@[i]).0@ != (#[trigger] entries@[j]).0@ by {
            assert(got[i].0 == entries@[i].0@);
            assert(got[j].0 == entries@[j].0@);
            if got[i].0.len() == got[j].0.len() {
                assert(got[i].0[3] != got[j].0[3]);
            }
        }
        insert_job_attrs(&mut self.attrs, entries);
    }
}

} // verus!
