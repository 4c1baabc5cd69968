//! Section ids: a custom id, or one generated from the section title
//! (lower-cased words joined by the `idseparator`, behind the `idprefix`),
//! numbered when it is already taken.
use vstd::prelude::*;
use vstd::string::StringExecFns;

use crate::parser::Parser;

verus! {

/// What std's `char::is_alphanumeric` answers for `c`.
pub uninterp spec fn unicode_alphanumeric(c: char) -> bool;

/// The chars std's `char::to_lowercase` yields for `c`.
pub uninterp spec fn unicode_lowercase(c: char) -> Seq<char>;

/// Whether `c` is alphabetic or numeric in Unicode's sense.
///
/// Trusted: calls std's `char::is_alphanumeric`.
#[verifier::external_body]
fn char_is_alphanumeric(c: char) -> (r: bool)
    ensures
        r == unicode_alphanumeric(c),
{
    c.is_alphanumeric()
}

/// The lower-case form of `c`.
///
/// Trusted: collects std's `char::to_lowercase`, which std documents to
/// yield one or more chars.
#[verifier::external_body]
fn char_to_lowercase(c: char) -> (r: Vec<char>)
    ensures
        r@ == unicode_lowercase(c),
        r@.len() >= 1,
{
    c.to_lowercase().collect()
}

/// Character entity references such as `&amp;`, `&#169;` and `&#xA9;`.
pub open spec fn entity_pattern() -> Seq<char> {
    r"&(?:[A-Za-z][A-Za-z]+\d{0,2}|#\d\d\d{0,4}|#x[\dA-Fa-f][\dA-Fa-f][\dA-Fa-f]{0,3});"@
}

/// Auxiliary inline anchors, `[[id]]`.
pub open spec fn aux_id_pattern() -> Seq<char> {
    r"\[\[.*?\]\]"@
}

/// The text with every match of `pattern` replaced by `rep`; left alone if
/// the pattern does not compile.
pub open spec fn stripped(pattern: Seq<char>, text: Seq<char>, rep: Seq<char>) -> Seq<char> {
    if crate::rx::regex_compiles(pattern) {
        crate::rx::regex_replace_all(pattern, text, rep)
    } else {
        text
    }
}

fn strip(pattern: &str, text: &str, rep: &str) -> (r: String)
    ensures
        r@ == stripped(pattern@, text@, rep@),
{
    if crate::rx::compiles(pattern) {
        crate::rx::replace_all(pattern, text, rep)
    } else {
        String::from_str(text)
    }
}

pub open spec fn is_ascii_alnum_char(c: char) -> bool {
    ('0' <= c <= '9') || ('A' <= c <= 'Z') || ('a' <= c <= 'z')
}

pub open spec fn ascii_lower(c: char) -> char {
    if 'A' <= c <= 'Z' {
        ((c as u32) + 32) as char
    } else {
        c
    }
}

/// The chars that separate words of an id.
pub open spec fn is_word_break(c: char) -> bool {
    c == ' ' || c == '-' || c == '.' || c == ',' || c == '\t'
}

/// Where reading a title for an id ends: with the id and its last char,
/// or at an auxiliary anchor or an entity to strip first.
pub enum IdScan {
    Done(Seq<char>, char),
    StripAux,
    StripEntities,
}

/// Reads the title from `i` on. `<<` is dropped; markup between `<` and
/// `>` is skipped; word breaks become one separator; ASCII letters and
/// digits are lower-cased, other letters and digits lower-cased as Unicode
/// says; anything else is dropped.
pub open spec fn id_scan(
    cs: Seq<char>,
    i: int,
    sep: Option<char>,
    re: bool,
    ra: bool,
    id: Seq<char>,
    in_tag: bool,
    last: char,
) -> IdScan
    decreases cs.len() - i,
{
    if i < 0 || i >= cs.len() {
        IdScan::Done(id, last)
    } else {
        let c = cs[i];
        let next_is_same = i + 1 < cs.len() && cs[i + 1] == c;
        if c == '<' && next_is_same {
            id_scan(cs, i + 2, sep, re, ra, id, in_tag, last)
        } else if c == '<' {
            id_scan(cs, i + 1, sep, re, ra, id, true, last)
        } else if c == '>' {
            id_scan(cs, i + 1, sep, re, ra, id, false, last)
        } else if is_word_break(c) {
            match sep {
                Some(s) => if s != last {
                    id_scan(cs, i + 1, sep, re, ra, id.push(s), in_tag, s)
                } else {
                    id_scan(cs, i + 1, sep, re, ra, id, in_tag, last)
                },
                None => id_scan(cs, i + 1, sep, re, ra, id, in_tag, last),
            }
        } else if c == '[' && next_is_same && !ra {
            IdScan::StripAux
        } else if c == '&' && !re {
            IdScan::StripEntities
        } else if in_tag {
            id_scan(cs, i + 1, sep, re, ra, id, in_tag, last)
        } else if is_ascii_alnum_char(c) {
            id_scan(cs, i + 1, sep, re, ra, id.push(ascii_lower(c)), in_tag, ascii_lower(c))
        } else if unicode_alphanumeric(c) {
            let l = unicode_lowercase(c);
            id_scan(
                cs,
                i + 1,
                sep,
                re,
                ra,
                id + l,
                in_tag,
                if l.len() > 0 {
                    l.last()
                } else {
                    last
                },
            )
        } else {
            id_scan(cs, i + 1, sep, re, ra, id, in_tag, last)
        }
    }
}

/// `id`, the separator, then the number `k`.
pub open spec fn candidate(id: Seq<char>, sep: Option<char>, k: nat) -> Seq<char> {
    id + match sep {
        Some(s) => seq![s],
        None => Seq::empty(),
    } + crate::text::decimal(k)
}

/// The first numbered form of `id` (from 2 on) not among `taken`.
pub open spec fn sequenced(id: Seq<char>, sep: Option<char>, taken: Seq<Seq<char>>) -> Seq<char> {
    let k = choose|k: nat|
        k >= 2 && !taken.contains(candidate(id, sep, k)) && forall|j: nat|
            2 <= j < k ==> taken.contains(#[trigger] candidate(id, sep, j));
    candidate(id, sep, k)
}

/// The id once read: a trailing separator is dropped; an empty id is
/// numbered; without a prefix a leading separator is dropped; a taken id is
/// numbered. `None` where a leading multi-byte separator would be cut in
/// the middle.
pub open spec fn finish_id(
    id: Seq<char>,
    last: char,
    prefix: Seq<char>,
    sep: Option<char>,
    taken: Seq<Seq<char>>,
) -> Option<Seq<char>> {
    let id1 = if sep == Some(last) && id.len() > 0 {
        id.drop_last()
    } else {
        id
    };
    if sep is Some && id1.len() == 0 {
        Some(sequenced(id1, sep, taken))
    } else {
        let strip_first = prefix.len() == 0 && id1.len() > 0 && sep == Some(id1[0]);
        if strip_first && (id1[0] as u32) >= 128 {
            None
        } else {
            let id2 = if strip_first {
                id1.drop_first()
            } else {
                id1
            };
            if taken.contains(id2) {
                Some(sequenced(id2, sep, taken))
            } else {
                Some(id2)
            }
        }
    }
}

/// The id generated for a title; auxiliary anchors and then entities are
/// stripped from the title when met.
pub open spec fn autogen_id(
    line: Seq<char>,
    prefix: Seq<char>,
    sep: Option<char>,
    re: bool,
    ra: bool,
    taken: Seq<Seq<char>>,
) -> Option<Seq<char>>
    decreases (if re {
        0int
    } else {
        1int
    }) + (if ra {
        0int
    } else {
        1int
    }),
{
    let last = if prefix.len() > 0 {
        prefix.last()
    } else {
        '\0'
    };
    match id_scan(line, 0, sep, re, ra, prefix, false, last) {
        IdScan::Done(id, l) => finish_id(id, l, prefix, sep, taken),
        IdScan::StripAux => if !ra {
            autogen_id(stripped(aux_id_pattern(), line, "$1"@), prefix, sep, re, true, taken)
        } else {
            None
        },
        IdScan::StripEntities => if !re {
            autogen_id(stripped(entity_pattern(), line, ""@), prefix, sep, true, ra, taken)
        } else {
            None
        },
    }
}

/// [`IdScan`] with plain values.
pub enum IdScanOut {
    Done(Vec<char>, char),
    StripAux,
    StripEntities,
}

fn lower_ascii(c: char) -> (r: char)
    requires
        'A' <= c <= 'Z',
    ensures
        r == ascii_lower(c),
{
    let v: u8 = (c as u8) + 32;
    v as char
}

#[verifier::loop_isolation(false)]
fn scan_id(cs: &Vec<char>, sep: Option<char>, re: bool, ra: bool, prefix: Vec<char>, last0: char) -> (r: IdScanOut)
    ensures
        match id_scan(cs@, 0, sep, re, ra, prefix@, false, last0) {
            IdScan::Done(id, l) => r matches IdScanOut::Done(v, c) && v@ == id && c == l,
            IdScan::StripAux => r is StripAux,
            IdScan::StripEntities => r is StripEntities,
        },
{
    let ghost p0 = prefix@;
    let ghost target = id_scan(cs@, 0, sep, re, ra, p0, false, last0);
    let mut id = prefix;
    let mut in_tag = false;
    let mut last = last0;
    let mut i: usize = 0;
    while i < cs.len()
        invariant
            0 <= i <= cs@.len() + 1,
            id_scan(cs@, i as int, sep, re, ra, id@, in_tag, last) == target,
            target == id_scan(cs@, 0, sep, re, ra, p0, false, last0),
        decreases cs@.len() + 1 - i,
    {
        let c = cs[i];
        let next_is_same = i + 1 < cs.len() && cs[i + 1] == c;
        if c == '<' && next_is_same {
            i = i + 2;
        } else if c == '<' {
            in_tag = true;
            i = i + 1;
        } else if c == '>' {
            in_tag = false;
            i = i + 1;
        } else if c == ' ' || c == '-' || c == '.' || c == ',' || c == '\t' {
            if let Some(s) = sep {
                if s != last {
                    id.push(s);
                    last = s;
                }
            }
            i = i + 1;
        } else if c == '[' && next_is_same && !ra {
            assert(cs@[i as int] == c);
            assert(id_scan(cs@, i as int, sep, re, ra, id@, in_tag, last) is StripAux);
            return IdScanOut::StripAux;
        } else if c == '&' && !re {
            assert(cs@[i as int] == c);
            assert(id_scan(cs@, i as int, sep, re, ra, id@, in_tag, last) is StripEntities);
            return IdScanOut::StripEntities;
        } else if in_tag {
            i = i + 1;
        } else if ('0' <= c && c <= '9') || ('a' <= c && c <= 'z') {
            id.push(c);
            last = c;
            i = i + 1;
        } else if 'A' <= c && c <= 'Z' {
            let l = lower_ascii(c);
            id.push(l);
            last = l;
            i = i + 1;
        } else if char_is_alphanumeric(c) {
            let l = char_to_lowercase(c);
            let ghost before = id@;
            let mut k: usize = 0;
            while k < l.len()
                invariant
                    0 <= k <= l@.len(),
                    id@ == before + l@.take(k as int),
                decreases l@.len() - k,
            {
                id.push(l[k]);
                assert(l@.take(k + 1) =~= l@.take(k as int).push(l@[k as int]));
                k = k + 1;
            }
            assert(l@.take(k as int) =~= l@);
            last = l[l.len() - 1];
            i = i + 1;
        } else {
            i = i + 1;
        }
    }
    IdScanOut::Done(id, last)
}

proof fn lemma_candidate_injective(id: Seq<char>, sep: Option<char>, a: nat, b: nat)
    requires
        candidate(id, sep, a) == candidate(id, sep, b),
    ensures
        a == b,
{
    let pre = id + match sep {
        Some(s) => seq![s],
        None => Seq::empty(),
    };
    assert(candidate(id, sep, a).skip(pre.len() as int) =~= crate::text::decimal(a));
    assert(candidate(id, sep, b).skip(pre.len() as int) =~= crate::text::decimal(b));
    crate::text::lemma_decimal_injective(a, b);
}

/// Candidates 2 up to `k` can all be taken only if there are that many
/// taken ids.
pub proof fn lemma_candidates_bound(id: Seq<char>, sep: Option<char>, taken: Seq<Seq<char>>, k: nat)
    requires
        k >= 2,
        forall|j: nat| 2 <= j < k ==> taken.contains(#[trigger] candidate(id, sep, j)),
    ensures
        k - 2 <= taken.len(),
{
    let cs = Seq::new((k - 2) as nat, |i: int| candidate(id, sep, (i + 2) as nat));
    assert forall|a: int, b: int| 0 <= a < b < cs.len() implies cs[a] != cs[b] by {
        if cs[a] == cs[b] {
            lemma_candidate_injective(id, sep, (a + 2) as nat, (b + 2) as nat);
        }
    }
    cs.unique_seq_to_set();
    taken.lemma_cardinality_of_set();
    assert forall|x: Seq<char>| cs.to_set().contains(x) implies taken.to_set().contains(x) by {
        let i = choose|i: int| 0 <= i < cs.len() && cs[i] == x;
        assert(taken.contains(candidate(id, sep, (i + 2) as nat)));
    }
    vstd::set_lib::lemma_len_subset(cs.to_set(), taken.to_set());
}

fn candidate_chars(id: &Vec<char>, sep: Option<char>, k: u32) -> (r: Vec<char>)
    ensures
        r@ == candidate(id@, sep, k as nat),
{
    let mut out: Vec<char> = Vec::new();
    let mut i: usize = 0;
    while i < id.len()
        invariant
            0 <= i <= id@.len(),
            out@ == id@.take(i as int),
        decreases id@.len() - i,
    {
        out.push(id[i]);
        assert(id@.take(i + 1) =~= id@.take(i as int).push(id@[i as int]));
        i = i + 1;
    }
    assert(id@.take(i as int) =~= id@);
    let ghost with_id = out@;
    if let Some(s) = sep {
        out.push(s);
    }
    let digits = crate::text::decimal_string(k);
    let ghost with_sep = out@;
    let mut j: usize = 0;
    while j < digits.len()
        invariant
            0 <= j <= digits@.len(),
            out@ == with_sep + digits@.take(j as int),
        decreases digits@.len() - j,
    {
        out.push(digits[j]);
        assert(digits@.take(j + 1) =~= digits@.take(j as int).push(digits@[j as int]));
        j = j + 1;
    }
    assert(digits@.take(j as int) =~= digits@);
    assert(out@ =~= candidate(id@, sep, k as nat));
    out
}

impl Parser {
    /// The first numbered form of `id` not yet taken: `id` and the
    /// separator followed by 2, 3, ...
    fn sequence_sectid(&self, id: &Vec<char>, separator: Option<char>) -> (r: String)
        requires
            self.anchor_ids@.len() + 3 <= u32::MAX,
        ensures
            r@ == sequenced(id@, separator, crate::tags::strings_view(self.anchor_ids@)),
    {
        let ghost taken = crate::tags::strings_view(self.anchor_ids@);
        assert(taken.len() == self.anchor_ids@.len());
        let mut k: u32 = 2;
        loop
            invariant
                2 <= k <= taken.len() + 2,
                taken.len() + 3 <= u32::MAX,
                taken == crate::tags::strings_view(self.anchor_ids@),
                forall|j: nat| 2 <= j < k ==> taken.contains(#[trigger] candidate(id@, separator, j)),
            decreases taken.len() + 2 - k,
        {
            let cand = candidate_chars(id, separator, k);
            let s = crate::text::string_of(cand.as_slice());
            if !crate::tags::strings_contain(&self.anchor_ids, s.as_str()) {
                proof {
                    let kk = choose|kk: nat|
                        kk >= 2 && !taken.contains(candidate(id@, separator, kk)) && forall|j: nat|
                            2 <= j < kk ==> taken.contains(#[trigger] candidate(id@, separator, j));
                    assert(k >= 2 && !taken.contains(candidate(id@, separator, k as nat)) && forall|j: nat|
                        2 <= j < k ==> taken.contains(#[trigger] candidate(id@, separator, j)));
                    if kk < k {
                        assert(taken.contains(candidate(id@, separator, kk)));
                    }
                    if kk > k {
                        assert(taken.contains(candidate(id@, separator, k as nat)));
                    }
                }
                return s;
            }
            proof {
                assert forall|j: nat| 2 <= j < k + 1 implies taken.contains(#[trigger] candidate(id@, separator, j)) by {
                    if j == k {
                    }
                }
                lemma_candidates_bound(id@, separator, taken, (k + 1) as nat);
            }
            k = k + 1;
        }
    }
}

/// The attribute values that shape generated ids: `idseparator` (unset:
/// none; set to text: its first char; otherwise `_`) and `idprefix` (unset:
/// none; text: that text; otherwise `_`).
pub open spec fn id_separator_of(v: Option<crate::attrs::AttrValueV>) -> Option<char> {
    match v {
        Some(crate::attrs::AttrValueV::Bool(true)) => None,
        Some(crate::attrs::AttrValueV::String(s)) => if s.len() > 0 {
            Some(s[0])
        } else {
            None
        },
        _ => Some('_'),
    }
}

pub open spec fn id_prefix_of(v: Option<crate::attrs::AttrValueV>) -> Seq<char> {
    match v {
        Some(crate::attrs::AttrValueV::Bool(true)) => Seq::empty(),
        Some(crate::attrs::AttrValueV::String(s)) => s,
        _ => "_"@,
    }
}

impl Parser {
    fn autogen_impl(&self, line: &str, prefix: &str, separator: Option<char>, re: bool, ra: bool) -> (r: Option<String>)
        requires
            self.anchor_ids@.len() + 3 <= u32::MAX,
        ensures
            crate::text::opt_string_view(r) == autogen_id(line@, prefix@, separator, re, ra, crate::tags::strings_view(self.anchor_ids@)),
        decreases (if re {
            0int
        } else {
            1int
        }) + (if ra {
            0int
        } else {
            1int
        }),
    {
        let ghost taken = crate::tags::strings_view(self.anchor_ids@);
        let cs = crate::text::chars_of(line);
        let pcs = crate::text::chars_of(prefix);
        let last0 = if pcs.len() > 0 {
            pcs[pcs.len() - 1]
        } else {
            '\0'
        };
        match scan_id(&cs, separator, re, ra, pcs, last0) {
            IdScanOut::StripAux => {
                if ra {
                    return None;
                }
                let sans = strip(r"\[\[.*?\]\]", line, "$1");
                self.autogen_impl(sans.as_str(), prefix, separator, re, true)
            },
            IdScanOut::StripEntities => {
                let sans = strip(
                    r"&(?:[A-Za-z][A-Za-z]+\d{0,2}|#\d\d\d{0,4}|#x[\dA-Fa-f][\dA-Fa-f][\dA-Fa-f]{0,3});",
                    line,
                    "",
                );
                if re {
                    return None;
                }
                self.autogen_impl(sans.as_str(), prefix, separator, true, ra)
            },
            IdScanOut::Done(id, last) => {
                let mut id = id;
                if separator == Some(last) && id.len() > 0 {
                    id.pop();
                }
                if separator.is_some() && id.len() == 0 {
                    return Some(self.sequence_sectid(&id, separator));
                }
                let prefix_empty = prefix.as_bytes().len() == 0;
                proof {
                    if prefix@.len() > 0 {
                        assert(vstd::utf8::encode_utf8(prefix@).len() > 0) by {
                            crate::token::lemma_prefix_bytes_le(prefix@, prefix@.len() as int);
                            assert(prefix@.take(0) =~= Seq::<char>::empty());
                            assert(vstd::utf8::encode_utf8(Seq::<char>::empty()) =~= Seq::<u8>::empty());
                            crate::token::lemma_prefix_bytes_increasing(prefix@, 0, prefix@.len() as int);
                            assert(prefix@.take(prefix@.len() as int) =~= prefix@);
                        }
                    } else {
                        assert(prefix@ =~= Seq::<char>::empty());
                        assert(vstd::utf8::encode_utf8(Seq::<char>::empty()) =~= Seq::<u8>::empty());
                    }
                }
                if prefix_empty && id.len() > 0 && separator == Some(id[0]) {
                    if id[0] as u32 >= 128 {
                        return None;
                    }
                    let ghost before = id@;
                    id.remove(0);
                    assert(id@ =~= before.drop_first());
                }
                let s = crate::text::string_of(id.as_slice());
                if crate::tags::strings_contain(&self.anchor_ids, s.as_str()) {
                    return Some(self.sequence_sectid(&id, separator));
                }
                Some(s)
            },
        }
    }

    /// The id generated for a section title, with the given prefix and
    /// separator.
    pub fn autogen_sect_id(&self, line: &str, prefix: &str, separator: Option<char>) -> (r: String)
        requires
            self.anchor_ids@.len() + 3 <= u32::MAX,
            autogen_id(line@, prefix@, separator, false, false, crate::tags::strings_view(self.anchor_ids@)) is Some,
        ensures
            Some(r@) == autogen_id(line@, prefix@, separator, false, false, crate::tags::strings_view(self.anchor_ids@)),
            !crate::tags::strings_view(self.anchor_ids@).contains(r@),
    {
        proof {
            crate::laws::law_generated_id_is_fresh(line@, prefix@, separator, false, false, crate::tags::strings_view(self.anchor_ids@));
        }
        self.autogen_impl(line, prefix, separator, false, false).unwrap()
    }

    /// The id generated for a section title, as `autogen_sect_id` gives it;
    /// `None` for a title the generation cannot handle (a leading
    /// multi-byte separator that would be cut in the middle, or markup left
    /// after stripping).
    pub fn try_autogen_sect_id(&self, line: &str, prefix: &str, separator: Option<char>) -> (r: Option<String>)
        requires
            self.anchor_ids@.len() + 3 <= u32::MAX,
        ensures
            crate::text::opt_string_view(r) == autogen_id(line@, prefix@, separator, false, false, crate::tags::strings_view(self.anchor_ids@)),
            r matches Some(id) ==> !crate::tags::strings_view(self.anchor_ids@).contains(id@),
    {
        proof {
            if autogen_id(line@, prefix@, separator, false, false, crate::tags::strings_view(self.anchor_ids@)) is Some {
                crate::laws::law_generated_id_is_fresh(line@, prefix@, separator, false, false, crate::tags::strings_view(self.anchor_ids@));
            }
        }
        self.autogen_impl(line, prefix, separator, false, false)
    }

    /// Records an id as taken (once).
    fn take_anchor_id(&mut self, id: &String)
        ensures
            crate::tags::strings_view(final(self).anchor_ids@) == if crate::tags::strings_view(old(self).anchor_ids@).contains(id@) {
                crate::tags::strings_view(old(self).anchor_ids@)
            } else {
                crate::tags::strings_view(old(self).anchor_ids@).push(id@)
            },
            crate::tags::strings_view(final(self).anchor_ids@).to_set() == crate::tags::strings_view(
                old(self).anchor_ids@,
            ).to_set().insert(id@),
            final(self).attrs@ == old(self).attrs@,
            final(self).leveloffset == old(self).leveloffset,
    {
        let ghost before = crate::tags::strings_view(self.anchor_ids@);
        if !crate::tags::strings_contain(&self.anchor_ids, id.as_str()) {
            let ghost b = self.anchor_ids@;
            self.anchor_ids.push(id.clone());
            assert(crate::tags::strings_view(self.anchor_ids@) =~= crate::tags::strings_view(b).push(id@));
            proof {
                before.lemma_push_to_set_commute(id@);
            }
        } else {
            assert(before.to_set().insert(id@) =~= before.to_set());
        }
    }

    /// The id separator and prefix the attributes set.
    fn id_settings(&self) -> (r: (Option<char>, String))
        ensures
            r.0 == id_separator_of(crate::attrs::lookup(self.attrs@, "idseparator"@)),
            r.1@ == id_prefix_of(crate::attrs::lookup(self.attrs@, "idprefix"@)),
    {
        let sep = match self.attrs.get("idseparator") {
            Some(crate::attrs::AttrValue::Bool(true)) => None,
            Some(crate::attrs::AttrValue::String(s)) => {
                let cs = crate::text::chars_of(s.as_str());
                if cs.len() > 0 {
                    Some(cs[0])
                } else {
                    None
                }
            },
            _ => Some('_'),
        };
        let prefix: String = match self.attrs.get("idprefix") {
            Some(crate::attrs::AttrValue::Bool(true)) => String::from_str(""),
            Some(crate::attrs::AttrValue::String(s)) => s.clone(),
            _ => String::from_str("_"),
        };
        proof {
            reveal_strlit("");
        }
        assert(sep == id_separator_of(crate::attrs::lookup(self.attrs@, "idseparator"@)));
        assert(prefix@ == id_prefix_of(crate::attrs::lookup(self.attrs@, "idprefix"@)));
        (sep, prefix)
    }

    /// The id of a section, as `section_id` gives it (`Some` of its
    /// result), where the id can be generated; `None`, with nothing
    /// changed, for a title the generation cannot handle.
    pub fn section_id_checked(&mut self, line_src: &str, custom_id: Option<&str>) -> (r: Option<Option<String>>)
        requires
            old(self).anchor_ids@.len() + 3 <= u32::MAX,
        ensures
            ({
                let needed = custom_id is None && !(crate::attrs::lookup(old(self).attrs@, "sectids"@) == Some(
                    crate::attrs::AttrValueV::Bool(false),
                ));
                let gen = autogen_id(
                    line_src@,
                    id_prefix_of(crate::attrs::lookup(old(self).attrs@, "idprefix"@)),
                    id_separator_of(crate::attrs::lookup(old(self).attrs@, "idseparator"@)),
                    false,
                    false,
                    crate::tags::strings_view(old(self).anchor_ids@),
                );
                if needed && gen is None {
                    r is None && final(self).anchor_ids@ == old(self).anchor_ids@
                } else {
                    r matches Some(id) && (crate::attrs::lookup(old(self).attrs@, "sectids"@) == Some(
                        crate::attrs::AttrValueV::Bool(false),
                    ) ==> id is None) && (match id {
                        Some(i) => (match custom_id {
                            Some(c) => i@ == c@,
                            None => Some(i@) == gen,
                        }) && crate::tags::strings_view(final(self).anchor_ids@).to_set() == crate::tags::strings_view(
                            old(self).anchor_ids@,
                        ).to_set().insert(i@),
                        None => crate::attrs::lookup(old(self).attrs@, "sectids"@) == Some(
                            crate::attrs::AttrValueV::Bool(false),
                        ),
                    })
                }
            }),
            final(self).attrs@ == old(self).attrs@,
    {
        if custom_id.is_none() && !self.attrs.is_false("sectids") {
            let (sep, prefix) = self.id_settings();
            if self.try_autogen_sect_id(line_src, prefix.as_str(), sep).is_none() {
                return None;
            }
        }
        Some(self.section_id(line_src, custom_id))
    }

    /// The id of a section: none when `sectids` is unset; the custom id
    /// when there is one; otherwise one generated from the title's source
    /// text. The id is recorded as taken.
    pub fn section_id(&mut self, line_src: &str, custom_id: Option<&str>) -> (r: Option<String>)
        requires
            old(self).anchor_ids@.len() + 3 <= u32::MAX,
            custom_id is None && !(crate::attrs::lookup(old(self).attrs@, "sectids"@) == Some(
                crate::attrs::AttrValueV::Bool(false),
            )) ==> autogen_id(
                line_src@,
                id_prefix_of(crate::attrs::lookup(old(self).attrs@, "idprefix"@)),
                id_separator_of(crate::attrs::lookup(old(self).attrs@, "idseparator"@)),
                false,
                false,
                crate::tags::strings_view(old(self).anchor_ids@),
            ) is Some,
        ensures
            crate::attrs::lookup(old(self).attrs@, "sectids"@) == Some(crate::attrs::AttrValueV::Bool(false)) ==> r
                is None && final(self).anchor_ids@ == old(self).anchor_ids@,
            !(crate::attrs::lookup(old(self).attrs@, "sectids"@) == Some(crate::attrs::AttrValueV::Bool(false)))
                ==> (match r {
                Some(id) => (match custom_id {
                    Some(c) => id@ == c@,
                    None => Some(id@) == autogen_id(
                        line_src@,
                        id_prefix_of(crate::attrs::lookup(old(self).attrs@, "idprefix"@)),
                        id_separator_of(crate::attrs::lookup(old(self).attrs@, "idseparator"@)),
                        false,
                        false,
                        crate::tags::strings_view(old(self).anchor_ids@),
                    ),
                }) && crate::tags::strings_view(final(self).anchor_ids@).to_set() == crate::tags::strings_view(
                    old(self).anchor_ids@,
                ).to_set().insert(id@),
                None => false,
            }),
            final(self).attrs@ == old(self).attrs@,
    {
        if self.attrs.is_false("sectids") {
            return None;
        }
        if let Some(c) = custom_id {
            let id = String::from_str(c);
            self.take_anchor_id(&id);
            return Some(id);
        }
        let (sep, prefix) = self.id_settings();
        let id = self.autogen_sect_id(line_src, prefix.as_str(), sep);
        self.take_anchor_id(&id);
        Some(id)
    }
}

} // verus!
