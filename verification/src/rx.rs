//! Calls into the `regex` crate. Which texts a pattern matches, and what its
//! groups capture, is the crate's business: the results are named here and
//! the parsing logic is stated over those names.
use vstd::prelude::*;

verus! {

/// Whether `regex::Regex::new` accepts the pattern.
pub uninterp spec fn regex_compiles(pattern: Seq<char>) -> bool;

/// The groups `regex::Regex::captures` reports for the first match of
/// `pattern` in `text` (group 0 is the whole match), `None` without a match.
pub uninterp spec fn regex_captures(pattern: Seq<char>, text: Seq<char>) -> Option<Seq<Option<Seq<char>>>>;

/// Same, for `regex::bytes::Regex` on a byte haystack.
pub uninterp spec fn bytes_regex_captures(pattern: Seq<char>, text: Seq<u8>) -> Option<Seq<Option<Seq<u8>>>>;

/// Every match `regex::Regex::captures_iter` reports for `pattern` in
/// `text`, in order: the byte range of the whole match and the groups.
pub uninterp spec fn regex_captures_all(pattern: Seq<char>, text: Seq<char>) -> Seq<(int, int, Seq<Option<Seq<char>>>)>;

/// Whether `regex::bytes::Regex::new` accepts the pattern.
pub uninterp spec fn bytes_regex_compiles(pattern: Seq<char>) -> bool;

/// The text `regex::Regex::replace_all` yields when every match of `pattern`
/// in `text` is replaced by the expansion of `rep`.
pub uninterp spec fn regex_replace_all(pattern: Seq<char>, text: Seq<char>, rep: Seq<char>) -> Seq<char>;

/// Whether `pattern` compiles.
///
/// Trusted: calls `regex::Regex::new` and reports whether it returned `Ok`.
#[verifier::external_body]
pub(crate) fn compiles(pattern: &str) -> (r: bool)
    ensures
        r == regex_compiles(pattern@),
{
    regex::Regex::new(pattern).is_ok()
}

/// Whether `pattern` compiles as a byte regex.
///
/// Trusted: calls `regex::bytes::Regex::new` and reports whether it returned
/// `Ok`.
#[verifier::external_body]
pub(crate) fn bytes_compiles(pattern: &str) -> (r: bool)
    ensures
        r == bytes_regex_compiles(pattern@),
{
    regex::bytes::Regex::new(pattern).is_ok()
}

/// The capture groups of the first match of `pattern` in `text`.
///
/// Trusted: calls `regex::Regex::captures` on the compiled pattern and copies
/// each group's text out; the regex crate documents that group 0, the whole
/// match, is always present in a match.
#[verifier::external_body]
pub(crate) fn captures(pattern: &str, text: &str) -> (r: Option<Vec<Option<String>>>)
    requires
        regex_compiles(pattern@),
    ensures
        match regex_captures(pattern@, text@) {
            Some(gs) => r matches Some(v) && v@.len() == gs.len() && gs.len() >= 1 && gs[0] is Some
                && forall|i: int|
                0 <= i < gs.len() ==> match (#[trigger] gs[i], v@[i]) {
                    (Some(g), Some(s)) => s@ == g,
                    (None, None) => true,
                    _ => false,
                },
            None => r is None,
        },
{
    let re = regex::Regex::new(pattern).unwrap();
    let caps = re.captures(text)?;
    let mut groups = Vec::new();
    for i in 0..caps.len() {
        groups.push(caps.get(i).map(|m| m.as_str().to_string()));
    }
    Some(groups)
}

/// The capture groups of the first match of `pattern` in the bytes `text`.
///
/// Trusted: calls `regex::bytes::Regex::captures` and copies each group's
/// bytes out; group 0, the whole match, is always present in a match.
#[verifier::external_body]
pub(crate) fn bytes_captures(pattern: &str, text: &[u8]) -> (r: Option<Vec<Option<Vec<u8>>>>)
    requires
        bytes_regex_compiles(pattern@),
    ensures
        match bytes_regex_captures(pattern@, text@) {
            Some(gs) => r matches Some(v) && v@.len() == gs.len() && gs.len() >= 1 && gs[0] is Some
                && forall|i: int|
                0 <= i < gs.len() ==> match (#[trigger] gs[i], v@[i]) {
                    (Some(g), Some(s)) => s@ == g,
                    (None, None) => true,
                    _ => false,
                },
            None => r is None,
        },
{
    let re = regex::bytes::Regex::new(pattern).unwrap();
    let caps = re.captures(text)?;
    let mut groups = Vec::new();
    for i in 0..caps.len() {
        groups.push(caps.get(i).map(|m| m.as_bytes().to_vec()));
    }
    Some(groups)
}

/// Replaces every match of `pattern` in `text` by the expansion of `rep`.
///
/// Trusted: calls `regex::Regex::replace_all` with a string replacement.
#[verifier::external_body]
pub(crate) fn replace_all(pattern: &str, text: &str, rep: &str) -> (r: String)
    requires
        regex_compiles(pattern@),
    ensures
        r@ == regex_replace_all(pattern@, text@, rep@),
{
    regex::Regex::new(pattern).unwrap().replace_all(text, rep).into_owned()
}

/// Group `i` of a capture result, `None` when absent.
pub fn group(gs: &Vec<Option<String>>, i: usize) -> (r: Option<&String>)
    ensures
        i < gs@.len() ==> match gs@[i as int] {
            Some(s) => r == Some(&s),
            None => r is None,
        },
        i >= gs@.len() ==> r is None,
{
    if i < gs.len() {
        match &gs[i] {
            Some(s) => Some(s),
            None => None,
        }
    } else {
        None
    }
}

/// What group `i` of a capture result names, in spec terms.
pub open spec fn group_of(gs: Seq<Option<Seq<char>>>, i: int) -> Option<Seq<char>> {
    if 0 <= i < gs.len() {
        gs[i]
    } else {
        None
    }
}

/// The texts of captured groups, as the specifications see them.
pub open spec fn groups_view(v: Seq<Option<String>>) -> Seq<Option<Seq<char>>> {
    v.map_values(|o: Option<String>| match o {
        Some(s) => Some(s@),
        None => None,
    })
}

/// Groups copied out group by group are the groups.
pub proof fn lemma_groups_view(v: Seq<Option<String>>, gs: Seq<Option<Seq<char>>>)
    requires
        v.len() == gs.len(),
        forall|i: int|
            0 <= i < gs.len() ==> match (#[trigger] gs[i], v[i]) {
                (Some(g), Some(s)) => s@ == g,
                (None, None) => true,
                _ => false,
            },
    ensures
        groups_view(v) == gs,
{
    assert forall|i: int| 0 <= i < gs.len() implies groups_view(v)[i] == gs[i] by {
        match (gs[i], v[i]) {
            (Some(g), Some(s)) => {},
            (None, None) => {},
            _ => {},
        }
    }
    assert(groups_view(v) =~= gs);
}

/// Every match of `pattern` in `text`, each with the byte range of the
/// whole match and its groups.
///
/// Trusted: calls `regex::Regex::captures_iter` and copies, for each match,
/// the start and end of group 0 (always present in a match) and each
/// group's text.
#[verifier::external_body]
pub(crate) fn captures_all(pattern: &str, text: &str) -> (r: Vec<(usize, usize, Vec<Option<String>>)>)
    requires
        regex_compiles(pattern@),
    ensures
        r@.len() == regex_captures_all(pattern@, text@).len(),
        forall|i: int|
            0 <= i < r@.len() ==> (#[trigger] r@[i]).0 as int == regex_captures_all(pattern@, text@)[i].0 && r@[i].1
                as int == regex_captures_all(pattern@, text@)[i].1 && groups_view(r@[i].2@)
                == regex_captures_all(pattern@, text@)[i].2,
{
    let re = regex::Regex::new(pattern).unwrap();
    let mut all = Vec::new();
    for caps in re.captures_iter(text) {
        let whole = caps.get(0).unwrap();
        let groups = (0..caps.len()).map(|i| caps.get(i).map(|m| m.as_str().to_string())).collect();
        all.push((whole.start(), whole.end(), groups));
    }
    all
}

} // verus!
