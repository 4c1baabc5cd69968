//! Include directives: which are honoured (safe mode, URI reading, depth,
//! resolver), where a target points, and how a resolved file's contents are
//! prepared before they are read in place of the directive.
use vstd::prelude::*;
use vstd::string::StringExecFns;

use crate::includes::{indentation_set, opt_view, ranges_selected, attr_selection, is_asciidoc_ext};
use crate::parser::Parser;
use crate::resolver::{IncludeResolver, IncludeTarget, ResolveError};

verus! {

/// How much the document may reach outside itself, from least to most
/// restricted.
#[derive(Debug, Clone, Copy, PartialEq, Eq, Structural)]
pub enum SafeMode {
    Unsafe,
    Safe,
    Server,
    Secure,
}

pub open spec fn safe_level(m: SafeMode) -> int {
    match m {
        SafeMode::Unsafe => 0,
        SafeMode::Safe => 1,
        SafeMode::Server => 10,
        SafeMode::Secure => 20,
    }
}

fn level(m: SafeMode) -> (r: u8)
    ensures
        r == safe_level(m),
{
    match m {
        SafeMode::Unsafe => 0,
        SafeMode::Safe => 1,
        SafeMode::Server => 10,
        SafeMode::Secure => 20,
    }
}

/// Whether a path is relative (does not start at the root).
pub open spec fn is_relative(p: Seq<char>) -> bool {
    !(p.len() > 0 && p[0] == '/')
}

/// A path under a directory (an absolute path stays as it is).
pub open spec fn joined(dir: Seq<char>, p: Seq<char>) -> Seq<char> {
    if !is_relative(p) {
        p
    } else if dir.len() > 0 && dir.last() == '/' {
        dir + p
    } else {
        dir + seq!['/'] + p
    }
}

/// The index of the last `/`, if any.
pub open spec fn last_slash(p: Seq<char>) -> Option<int>
    decreases p.len(),
{
    if p.len() == 0 {
        None
    } else if p.last() == '/' {
        Some(p.len() - 1)
    } else {
        last_slash(p.drop_last())
    }
}

/// The directory part of a path: what precedes its last `/`.
pub open spec fn dirname(p: Seq<char>) -> Seq<char> {
    match last_slash(p) {
        Some(i) => p.take(i),
        None => Seq::empty(),
    }
}

/// Where an include target points. A URI is taken as it is. A relative
/// target of the primary document resolves against the resolver's base
/// directory (which must then be given); otherwise a relative target
/// resolves against the directory of the including file. `None` for a
/// relative target in a source that is no file, which is not handled.
pub open spec fn prepared_target(
    target: Seq<char>,
    target_is_uri: bool,
    src_path: Option<Seq<char>>,
    src_is_primary: bool,
    base_dir: Option<Seq<char>>,
) -> Option<Result<Seq<char>, ResolveError>> {
    if target_is_uri {
        Some(Ok(target))
    } else if src_is_primary && is_relative(target) {
        match base_dir {
            None => Some(Err(ResolveError::BaseDirRequired)),
            Some(b) => Some(Ok(joined(b, target))),
        }
    } else {
        match src_path {
            Some(src) => Some(Ok(joined(dirname(src), target))),
            None => None,
        }
    }
}

fn join_paths(dir: &Vec<char>, p: &Vec<char>) -> (r: Vec<char>)
    ensures
        r@ == joined(dir@, p@),
{
    if p.len() > 0 && p[0] == '/' {
        return p.clone();
    }
    let mut out = dir.clone();
    if !(dir.len() > 0 && dir[dir.len() - 1] == '/') {
        out.push('/');
    }
    let ghost base = out@;
    let mut i: usize = 0;
    while i < p.len()
        invariant
            0 <= i <= p@.len(),
            out@ == base + p@.take(i as int),
        decreases p@.len() - i,
    {
        out.push(p[i]);
        assert(p@.take(i + 1) =~= p@.take(i as int).push(p@[i as int]));
        i = i + 1;
    }
    assert(p@.take(i as int) =~= p@);
    out
}

pub(crate) fn dir_of(p: &Vec<char>) -> (r: Vec<char>)
    ensures
        r@ == dirname(p@),
{
    let mut k = p.len();
    assert(p@.take(k as int) =~= p@);
    while k > 0 && p[k - 1] != '/'
        invariant
            k <= p@.len(),
            last_slash(p@.take(k as int)) == last_slash(p@),
        decreases k,
    {
        assert(p@.take(k as int).drop_last() =~= p@.take(k - 1));
        k = k - 1;
    }
    if k == 0 {
        return Vec::new();
    }
    assert(p@.take(k as int).last() == '/');
    let mut out: Vec<char> = Vec::new();
    let mut i: usize = 0;
    while i < k - 1
        invariant
            0 <= i <= k - 1,
            k <= p@.len(),
            out@ == p@.take(i as int),
        decreases k - 1 - i,
    {
        out.push(p[i]);
        assert(p@.take(i + 1) =~= p@.take(i as int).push(p@[i as int]));
        i = i + 1;
    }
    out
}

/// Where an include target points.
pub fn prepare(
    target: &str,
    target_is_uri: bool,
    src_path: Option<&str>,
    src_is_primary: bool,
    base_dir: Option<&str>,
) -> (r: Result<IncludeTarget, ResolveError>)
    requires
        prepared_target(target@, target_is_uri, opt_view(src_path), src_is_primary, opt_view(base_dir)) is Some,
    ensures
        match prepared_target(target@, target_is_uri, opt_view(src_path), src_is_primary, opt_view(base_dir))->0 {
            Ok(p) => if target_is_uri {
                r matches Ok(IncludeTarget::Uri(u)) && u@ == p
            } else {
                r matches Ok(IncludeTarget::FilePath(f)) && f@ == p
            },
            Err(e) => r == Err::<IncludeTarget, ResolveError>(e),
        },
{
    if target_is_uri {
        return Ok(IncludeTarget::Uri(String::from_str(target)));
    }
    let t = crate::text::chars_of(target);
    let relative = !(t.len() > 0 && t[0] == '/');
    if src_is_primary && relative {
        return match base_dir {
            None => Err(ResolveError::BaseDirRequired),
            Some(b) => {
                let bc = crate::text::chars_of(b);
                let j = join_paths(&bc, &t);
                Ok(IncludeTarget::FilePath(crate::text::string_of(j.as_slice())))
            },
        };
    }
    let src = src_path.unwrap();
    let sc = crate::text::chars_of(src);
    let dir = dir_of(&sc);
    let j = join_paths(&dir, &t);
    Ok(IncludeTarget::FilePath(crate::text::string_of(j.as_slice())))
}

/// The extension of a path: from its last `.` after its last `/`, dot
/// included; empty without one.
pub open spec fn extension_of(p: Seq<char>) -> Seq<char>
    decreases p.len(),
{
    if p.len() == 0 || p.last() == '/' {
        Seq::empty()
    } else if p.last() == '.' {
        seq!['.']
    } else {
        let e = extension_of(p.drop_last());
        if e.len() > 0 {
            e.push(p.last())
        } else {
            e
        }
    }
}

fn extension(p: &str) -> (r: String)
    ensures
        r@ == extension_of(p@),
{
    let cs = crate::text::chars_of(p);
    let mut k: usize = 0;
    let mut out: Vec<char> = Vec::new();
    assert(cs@.take(0) =~= Seq::<char>::empty());
    while k < cs.len()
        invariant
            0 <= k <= cs@.len(),
            out@ == extension_of(cs@.take(k as int)),
        decreases cs@.len() - k,
    {
        assert(cs@.take(k + 1).drop_last() =~= cs@.take(k as int));
        let c = cs[k];
        if c == '/' {
            out = Vec::new();
        } else if c == '.' {
            out = Vec::new();
            out.push('.');
            assert(out@ =~= seq!['.']);
        } else if out.len() > 0 {
            out.push(c);
        }
        k = k + 1;
    }
    assert(cs@.take(k as int) =~= cs@);
    crate::text::string_of(out.as_slice())
}

/// The attributes of an include directive that shape its contents.
#[derive(Debug)]
pub struct IncludeAttrs {
    pub lines: Option<String>,
    pub tag: Option<String>,
    pub tags: Option<String>,
    pub indent: Option<String>,
    pub leveloffset: Option<String>,
    pub depth: Option<String>,
    pub encoding: Option<String>,
    /// The `optional` option: a missing file is skipped silently.
    pub optional: bool,
}

pub open spec fn opt_text(o: Option<String>) -> Option<Seq<char>> {
    crate::text::opt_string_view(o)
}

/// What to do with an include directive's line.
#[derive(Debug, PartialEq, Eq)]
pub enum IncludeAction {
    /// Leave the line as it is.
    Passthrough,
    /// Read this line, a link to the directive's target, in place of the
    /// directive (see `link_text`).
    SubstituteLink(String),
    /// Drop the line.
    ReadNextLine,
    /// Read this text in place of the line.
    ReadText(String),
    /// Read these bytes of the file at `path` in place of the line, with a
    /// level offset and an include depth limit; the problems found while
    /// selecting tagged lines come along to be reported.
    PushSource {
        path: String,
        bytes: Vec<u8>,
        leveloffset: i8,
        depth: Option<u16>,
        diagnostics: Vec<crate::tags::TagDiagnostic>,
    },
}

/// The file's bytes once decoded and, for AsciiDoc files, normalized.
pub open spec fn normalized_of(path: Seq<char>, attrs: IncludeAttrs, raw: Seq<u8>) -> Seq<u8> {
    let n = crate::encoding::encoding_normalized(opt_text(attrs.encoding), raw).0;
    if is_asciidoc_ext(extension_of(path)) {
        crate::includes::normalized_asciidoc(n)
    } else {
        n
    }
}

/// Those bytes narrowed to the lines the `lines` attribute, or else the
/// `tag` or `tags` attribute, selects.
pub open spec fn selected_of(path: Seq<char>, attrs: IncludeAttrs, raw: Seq<u8>) -> Seq<u8> {
    let normalized = normalized_of(path, attrs, raw);
    match opt_text(attrs.lines) {
        Some(l) => ranges_selected(l, normalized),
        None => match attr_selection(opt_text(attrs.tag), opt_text(attrs.tags)) {
            Some(sel) => crate::tags::tagged_selection(sel, normalized).0,
            None => normalized,
        },
    }
}

/// The problems selecting tagged lines finds.
pub open spec fn selection_diags(path: Seq<char>, attrs: IncludeAttrs, raw: Seq<u8>) -> Seq<
    crate::tags::TagDiagnosticV,
> {
    match opt_text(attrs.lines) {
        Some(l) => Seq::empty(),
        None => match attr_selection(opt_text(attrs.tag), opt_text(attrs.tags)) {
            Some(sel) => crate::tags::tagged_selection(sel, normalized_of(path, attrs, raw)).1,
            None => Seq::empty(),
        },
    }
}

/// The indentation an include's `indent` attribute asks for, if it is a
/// number.
pub open spec fn indent_of(attrs: IncludeAttrs) -> Option<int> {
    match opt_text(attrs.indent) {
        Some(i) => match crate::text::unsigned_decimal(i) {
            Some(v) => if v <= usize::MAX {
                Some(v)
            } else {
                None
            },
            None => None,
        },
        None => None,
    }
}

/// The file's bytes once decoded, normalized, narrowed to the selected
/// lines and re-indented.
pub open spec fn prepared_bytes(path: Seq<char>, attrs: IncludeAttrs, raw: Seq<u8>) -> Seq<u8> {
    let selected = selected_of(path, attrs, raw);
    match indent_of(attrs) {
        Some(v) => indentation_set(selected, v as nat),
        None => selected,
    }
}

/// The sizes along the way fit in memory.
pub open spec fn prepared_fits(path: Seq<char>, attrs: IncludeAttrs, raw: Seq<u8>) -> bool {
    &&& normalized_of(path, attrs, raw).len() < usize::MAX
    &&& indent_of(attrs) matches Some(v) ==> v + selected_of(path, attrs, raw).len() <= usize::MAX
}

/// The error that stops a file's bytes from being read in, if any.
pub open spec fn preparation_error(attrs: IncludeAttrs, raw: Seq<u8>) -> Option<Seq<char>> {
    crate::encoding::encoding_normalized(opt_text(attrs.encoding), raw).1
}

/// The level offset an include's `leveloffset` attribute gives.
pub open spec fn include_leveloffset(attrs: IncludeAttrs) -> int {
    match opt_text(attrs.leveloffset) {
        Some(s) => crate::parser::leveloffset_after(0, crate::attrs::AttrValueV::String(s)),
        None => 0,
    }
}

/// The include depth limit an include's `depth` attribute gives.
pub open spec fn include_depth(attrs: IncludeAttrs) -> Option<u16> {
    match opt_text(attrs.depth) {
        Some(s) => match crate::text::unsigned_decimal(s) {
            Some(v) => if v <= u16::MAX {
                Some(v as u16)
            } else {
                None
            },
            None => None,
        },
        None => None,
    }
}

pub open spec fn strings_of(v: Seq<String>) -> Seq<Seq<char>> {
    v.map_values(|s: String| s@)
}

pub(crate) fn push_error(errors: &mut Vec<String>, msg: String)
    ensures
        strings_of(final(errors)@) == strings_of(old(errors)@).push(msg@),
        final(errors)@.len() == old(errors)@.len() + 1,
{
    let ghost before = errors@;
    errors.push(msg);
    assert(strings_of(errors@) =~= strings_of(before).push(msg@));
}

/// The record of included files once `target` is added: each target is
/// recorded once.
pub open spec fn recorded(files: Seq<Seq<char>>, target: Seq<char>) -> Seq<Seq<char>> {
    if files.contains(target) {
        files
    } else {
        files.push(target)
    }
}

/// What becomes of an include whose target, at `path`, the resolver
/// supplied as `raw`: bytes that cannot be decoded turn the directive into a
/// link and report the error; bytes too many for memory leave the line;
/// otherwise the prepared bytes are read in place of the directive, with
/// the include's level offset, depth and selection diagnostics, and the
/// target is recorded as included. `errs`/`files` are the errors and the
/// included-files record before, `errs2`/`files2` after.
pub open spec fn resolved_outcome(
    errs: Seq<Seq<char>>,
    errs2: Seq<Seq<char>>,
    files: Seq<Seq<char>>,
    files2: Seq<Seq<char>>,
    path: Seq<char>,
    target: Seq<char>,
    attrs: IncludeAttrs,
    raw: Seq<u8>,
    link: Seq<char>,
    r: IncludeAction,
) -> bool {
    match preparation_error(attrs, raw) {
        Some(msg) => (r matches IncludeAction::SubstituteLink(l) && l@ == link) && errs2 == errs.push("Error resolving file contents: "@ + msg)
            && files2 == files,
        None => if !prepared_fits(path, attrs, raw) {
            r == IncludeAction::Passthrough && errs2 == errs && files2 == files
        } else {
            &&& r matches IncludeAction::PushSource { path: p, bytes, leveloffset, depth, diagnostics }
                && p@ == path && bytes@ == prepared_bytes(path, attrs, raw) && leveloffset == include_leveloffset(attrs)
                && depth == include_depth(attrs) && crate::tags::diags_view(diagnostics@) == selection_diags(path, attrs, raw)
            &&& errs2 == errs
            &&& files2 == recorded(files, target)
        },
    }
}

impl Parser {
    /// Prepares the bytes a resolver supplied for the file at `path` (the
    /// include's `target`): they are read in place of the directive, unless
    /// decoding fails, when the directive becomes a link and the error is
    /// reported. The target is recorded as included. (Bytes too many for
    /// memory along the way leave the line as it is.)
    pub fn include_resolved(&mut self, path: &str, target: &str, line_src: &str, raw: Vec<u8>, attrs: &IncludeAttrs) -> (r:
        IncludeAction)
        requires
            attrs.lines matches Some(l) ==> crate::includes::line_ranges_fit(l@),
            -128 <= include_leveloffset(*attrs) <= 127,
        ensures
            resolved_outcome(
                strings_of(old(self).errors@),
                strings_of(final(self).errors@),
                strings_of(old(self).included_files@),
                strings_of(final(self).included_files@),
                path@,
                target@,
                *attrs,
                raw@,
                link_text(line_src@, target@),
                r,
            ),
            final(self).attrs@ == old(self).attrs@,
            final(self).leveloffset == old(self).leveloffset,
            final(self).errors@.len() <= old(self).errors@.len() + 1,
            final(self).max_include_depth == old(self).max_include_depth,
    {
        let mut bytes = raw;
        let ext = extension(path);
        let enc: Option<&str> = match &attrs.encoding {
            Some(e) => Some(e.as_str()),
            None => None,
        };
        match crate::includes::normalize_include_bytes(ext.as_str(), enc, &mut bytes) {
            Ok(()) => {},
            Err(msg) => {
                let text = String::from_str("Error resolving file contents: ").concat(msg);
                push_error(&mut self.errors, text);
                return IncludeAction::SubstituteLink(include_link_line(line_src, target));
            },
        }
        assert(bytes@ == normalized_of(path@, *attrs, raw@));
        if bytes.len() == usize::MAX {
            return IncludeAction::Passthrough;
        }
        let lines: Option<&str> = match &attrs.lines {
            Some(l) => Some(l.as_str()),
            None => None,
        };
        let tag: Option<&str> = match &attrs.tag {
            Some(t) => Some(t.as_str()),
            None => None,
        };
        let tags: Option<&str> = match &attrs.tags {
            Some(t) => Some(t.as_str()),
            None => None,
        };
        let diagnostics = crate::includes::select_lines(lines, tag, tags, &mut bytes);
        assert(bytes@ == selected_of(path@, *attrs, raw@));
        if let Some(i) = &attrs.indent {
            let cs = crate::text::chars_of(i.as_str());
            if let Some(n) = crate::text::parse_usize(cs.as_slice()) {
                if n > usize::MAX - bytes.len() {
                    return IncludeAction::Passthrough;
                }
                crate::includes::set_indentation(n, &mut bytes);
            }
        }
        let mut leveloffset: i8 = 0;
        if let Some(lo) = &attrs.leveloffset {
            let v = crate::attrs::AttrValue::String(lo.clone());
            Parser::adjust_leveloffset(&mut leveloffset, &v);
        }
        let depth: Option<u16> = match &attrs.depth {
            Some(d) => {
                let cs = crate::text::chars_of(d.as_str());
                crate::text::parse_u16(cs.as_slice())
            },
            None => None,
        };
        let ghost before = self.included_files@;
        assert(crate::tags::strings_view(before) =~= strings_of(before));
        if !crate::tags::strings_contain(&self.included_files, target) {
            self.included_files.push(String::from_str(target));
            assert(strings_of(self.included_files@) =~= strings_of(before).push(target@));
        }
        assert(strings_of(self.included_files@) == recorded(strings_of(old(self).included_files@), target@));
        assert(strings_of(self.errors@) == strings_of(old(self).errors@));
        assert(prepared_fits(path@, *attrs, raw@));
        assert(bytes@ == prepared_bytes(path@, *attrs, raw@));
        let r = IncludeAction::PushSource { path: String::from_str(path), bytes, leveloffset, depth, diagnostics };
        assert(preparation_error(*attrs, raw@) is None);
        assert(r matches IncludeAction::PushSource { path: p, bytes, leveloffset, depth, diagnostics }
                && p@ == path@ && bytes@ == prepared_bytes(path@, *attrs, raw@) && leveloffset == include_leveloffset(*attrs)
                && depth == include_depth(*attrs));
        assert(r matches IncludeAction::PushSource { diagnostics, .. } && crate::tags::diags_view(diagnostics@) == selection_diags(path@, *attrs, raw@));
        r
    }
}

/// An include directive line, read into plain values.
#[derive(Debug)]
pub struct IncludeDirective {
    pub line_src: String,
    pub target: String,
    pub target_is_uri: bool,
    pub attrs: IncludeAttrs,
}

/// Where an include directive stands: the including file's path (when it
/// is a file), whether it is the primary document, the name reported for
/// it, and the lexer's include depth state (its limit as relative limit and
/// stack depth, and the current depth).
#[derive(Debug)]
pub struct IncludeSource {
    pub path: Option<String>,
    pub is_primary: bool,
    pub file_name: String,
    pub max_depth: Option<(u16, u16)>,
    pub depth: u16,
}

pub open spec fn uri_refused_message() -> Seq<char> {
    "Cannot include URL contents (allow-uri-read not enabled)"@
}

pub open spec fn no_resolver_message() -> Seq<char> {
    "No resolver supplied for include directive"@
}

/// The text read in place of a directive whose file could not be read.
pub open spec fn unresolved_text(file_name: Seq<char>, line_src: Seq<char>) -> Seq<char> {
    "+++Unresolved directive in "@ + file_name + " - "@ + line_src + "+++"@
}

/// The text with each `include::` replaced by `link:`, from left to right.
pub open spec fn replace_include(s: Seq<char>) -> Seq<char>
    decreases s.len(),
{
    if s.len() == 0 {
        Seq::empty()
    } else if "include::"@.len() > 0 && s.len() >= "include::"@.len() && s.take("include::"@.len() as int)
        == "include::"@ {
        "link:"@ + replace_include(s.skip("include::"@.len() as int))
    } else {
        seq![s[0]] + replace_include(s.drop_first())
    }
}

/// Each `[` opens an attribute list that starts with `role=include`; when
/// the target holds a space, a `]` closes the `pass:c[` put around it first.
pub open spec fn mark_brackets(s: Seq<char>, spaces: bool) -> Seq<char>
    decreases s.len(),
{
    if s.len() == 0 {
        Seq::empty()
    } else {
        (if s[0] == '[' {
            (if spaces {
                "]"@
            } else {
                Seq::empty()
            }) + "[role=include,"@
        } else {
            seq![s[0]]
        }) + mark_brackets(s.drop_first(), spaces)
    }
}

/// The line read in place of an include directive that becomes a link:
/// the directive as a `link:` macro whose attribute list starts with
/// `role=include`, its target wrapped in `pass:c[...]` when it holds a space.
pub open spec fn link_text(line_src: Seq<char>, target: Seq<char>) -> Seq<char> {
    let spaces = target.contains(' ');
    let s = replace_include(line_src);
    if s.len() >= "link:"@.len() && s.take("link:"@.len() as int) == "link:"@ {
        "link:"@ + (if spaces {
            "pass:c["@
        } else {
            Seq::empty()
        }) + mark_brackets(s.skip("link:"@.len() as int), spaces)
    } else {
        mark_brackets(s, spaces)
    }
}

/// The action that reads the directive's link line.
pub open spec fn is_link(r: IncludeAction, d: IncludeDirective) -> bool {
    r matches IncludeAction::SubstituteLink(l) && l@ == link_text(d.line_src@, d.target@)
}

fn has_space(cs: &Vec<char>) -> (r: bool)
    ensures
        r == cs@.contains(' '),
{
    let mut i: usize = 0;
    while i < cs.len()
        invariant
            0 <= i <= cs@.len(),
            forall|k: int| 0 <= k < i ==> cs@[k] != ' ',
        decreases cs@.len() - i,
    {
        if cs[i] == ' ' {
            assert(cs@[i as int] == ' ');
            return true;
        }
        i = i + 1;
    }
    false
}

fn replaced_include(cs: &Vec<char>) -> (r: Vec<char>)
    ensures
        r@ == replace_include(cs@),
{
    let inc = crate::text::chars_of("include::");
    let lnk = crate::text::chars_of("link:");
    proof {
        reveal_strlit("include::");
    }
    let n = cs.len();
    let mut out: Vec<char> = Vec::new();
    let mut i: usize = 0;
    assert(cs@.skip(0) =~= cs@);
    assert(out@ + replace_include(cs@.skip(0)) =~= replace_include(cs@));
    while i < n
        invariant
            n == cs@.len(),
            0 <= i <= n,
            inc@ == "include::"@,
            inc@.len() > 0,
            lnk@ == "link:"@,
            out@ + replace_include(cs@.skip(i as int)) == replace_include(cs@),
        decreases n - i,
    {
        let ghost rest = cs@.skip(i as int);
        let ghost o = out@;
        if inc.len() <= n - i && crate::text::range_eq(cs.as_slice(), i, i + inc.len(), inc.as_slice()) {
            proof {
                assert(rest.take(inc@.len() as int) =~= cs@.subrange(i as int, i + inc@.len()));
                assert(rest.skip(inc@.len() as int) =~= cs@.skip(i + inc@.len()));
            }
            crate::attr_list::append_chars(&mut out, &lnk);
            proof {
                assert(out@ + replace_include(cs@.skip(i + inc@.len())) =~= o + ("link:"@ + replace_include(
                    rest.skip(inc@.len() as int),
                )));
            }
            i = i + inc.len();
        } else {
            proof {
                if rest.len() >= inc@.len() {
                    assert(rest.take(inc@.len() as int) =~= cs@.subrange(i as int, i + inc@.len()));
                }
                assert(rest[0] == cs@[i as int]);
                assert(rest.drop_first() =~= cs@.skip(i + 1));
            }
            out.push(cs[i]);
            proof {
                assert(out@ + replace_include(cs@.skip(i + 1)) =~= o + (seq![cs@[i as int]] + replace_include(
                    rest.drop_first(),
                )));
            }
            i = i + 1;
        }
    }
    assert(cs@.skip(n as int) =~= Seq::<char>::empty());
    assert(out@ + Seq::<char>::empty() =~= out@);
    out
}

fn marked_brackets(cs: &Vec<char>, from: usize, spaces: bool, out: &mut Vec<char>)
    requires
        from <= cs@.len(),
    ensures
        final(out)@ == old(out)@ + mark_brackets(cs@.skip(from as int), spaces),
{
    let close = crate::text::chars_of("]");
    let open = crate::text::chars_of("[role=include,");
    let n = cs.len();
    let mut i = from;
    assert(old(out)@ + mark_brackets(cs@.skip(from as int), spaces) =~= out@ + mark_brackets(cs@.skip(i as int), spaces));
    while i < n
        invariant
            n == cs@.len(),
            from <= i <= n,
            close@ == "]"@,
            open@ == "[role=include,"@,
            out@ + mark_brackets(cs@.skip(i as int), spaces) == old(out)@ + mark_brackets(cs@.skip(from as int), spaces),
        decreases n - i,
    {
        let ghost rest = cs@.skip(i as int);
        let ghost o = out@;
        proof {
            assert(rest[0] == cs@[i as int]);
            assert(rest.drop_first() =~= cs@.skip(i + 1));
        }
        if cs[i] == '[' {
            if spaces {
                crate::attr_list::append_chars(out, &close);
            }
            crate::attr_list::append_chars(out, &open);
            proof {
                let piece = (if spaces {
                    "]"@
                } else {
                    Seq::<char>::empty()
                }) + "[role=include,"@;
                assert(out@ =~= o + piece);
                assert(out@ + mark_brackets(cs@.skip(i + 1), spaces) =~= o + (piece + mark_brackets(rest.drop_first(), spaces)));
            }
        } else {
            out.push(cs[i]);
            proof {
                assert(out@ + mark_brackets(cs@.skip(i + 1), spaces) =~= o + (seq![cs@[i as int]] + mark_brackets(
                    rest.drop_first(),
                    spaces,
                )));
            }
        }
        i = i + 1;
    }
    assert(cs@.skip(n as int) =~= Seq::<char>::empty());
    assert(out@ + Seq::<char>::empty() =~= out@);
}

/// Builds the line read in place of an include directive that becomes a
/// link (see `link_text`).
pub fn include_link_line(line_src: &str, target: &str) -> (r: String)
    ensures
        r@ == link_text(line_src@, target@),
{
    let spaces = has_space(&crate::text::chars_of(target));
    let s = replaced_include(&crate::text::chars_of(line_src));
    let lnk = crate::text::chars_of("link:");
    let mut out: Vec<char> = Vec::new();
    if lnk.len() <= s.len() && crate::text::range_eq(s.as_slice(), 0, lnk.len(), lnk.as_slice()) {
        assert(s@.take(lnk@.len() as int) =~= s@.subrange(0, lnk@.len() as int));
        crate::attr_list::append_chars(&mut out, &lnk);
        if spaces {
            crate::attr_list::append_chars(&mut out, &crate::text::chars_of("pass:c["));
        }
        marked_brackets(&s, lnk.len(), spaces, &mut out);
    } else {
        proof {
            if s@.len() >= lnk@.len() {
                assert(s@.take(lnk@.len() as int) =~= s@.subrange(0, lnk@.len() as int));
            }
        }
        assert(s@.skip(0) =~= s@);
        marked_brackets(&s, 0, spaces, &mut out);
        assert(out@ =~= Seq::<char>::empty() + mark_brackets(s@, spaces));
    }
    crate::text::string_of(out.as_slice())
}

/// What becomes of an include whose target the resolver could not supply
/// (error `e`): a missing optional file is skipped; otherwise the error is
/// reported, and a missing or unreadable file leaves an "Unresolved
/// directive" text in place of the line, any other error the line.
pub open spec fn failed_outcome(
    errs: Seq<Seq<char>>,
    errs2: Seq<Seq<char>>,
    d: IncludeDirective,
    source: IncludeSource,
    e: ResolveError,
    r: IncludeAction,
) -> bool {
    if e == ResolveError::NotFound && d.attrs.optional {
        r == IncludeAction::ReadNextLine && errs2 == errs
    } else {
        &&& errs2 == errs.push("Include error: "@ + crate::resolver::resolve_error_text(e))
        &&& if e is NotFound || e is Io {
            r matches IncludeAction::ReadText(t) && t@ == unresolved_text(source.file_name@, d.line_src@)
        } else {
            r == IncludeAction::Passthrough
        }
    }
}

/// What becomes of an include that reaches the resolver, whose base
/// directory is `base_dir`: the outcome (`include_outcome`) and the targets
/// it was asked for (`requests_after`).
pub open spec fn include_via_resolver(
    errs: Seq<Seq<char>>,
    errs2: Seq<Seq<char>>,
    files: Seq<Seq<char>>,
    files2: Seq<Seq<char>>,
    asked: Seq<(bool, Seq<char>)>,
    asked2: Seq<(bool, Seq<char>)>,
    d: IncludeDirective,
    source: IncludeSource,
    base_dir: Option<Seq<char>>,
    r: IncludeAction,
) -> bool {
    include_outcome(errs, errs2, files, files2, d, source, base_dir, r) && requests_after(asked, asked2, d, source, base_dir)
}

/// The directive gets as far as the resolver: not secure mode, not a URI
/// that may not be read, not past the include depth limit.
pub open spec fn resolver_reached(
    d: &IncludeDirective,
    safe_mode: SafeMode,
    attrs: Seq<(Seq<char>, crate::attrs::AttrValueV)>,
    max_include_depth: u16,
    source: IncludeSource,
) -> bool {
    &&& safe_mode != SafeMode::Secure
    &&& !(d.target_is_uri && (safe_level(safe_mode) > safe_level(SafeMode::Server) || !crate::attrs::is_set_value(
        crate::attrs::lookup(attrs, "allow-uri-read"@),
    )))
    &&& crate::parser::depth_exceeded(max_include_depth, source.max_depth, source.depth) is None
}

/// The targets the resolver was asked for: the prepared target is added
/// when the directive's target could be prepared (the resolver's base
/// directory being `base_dir`); nothing is asked otherwise.
pub open spec fn requests_after(
    before: Seq<(bool, Seq<char>)>,
    after: Seq<(bool, Seq<char>)>,
    d: IncludeDirective,
    source: IncludeSource,
    base_dir: Option<Seq<char>>,
) -> bool {
    match prepared_target(d.target@, d.target_is_uri, crate::text::opt_string_view(source.path), source.is_primary, base_dir) {
        Some(Ok(p)) => after == before.push((d.target_is_uri, p)),
        _ => after == before,
    }
}

/// What becomes of an include once the resolver's base directory is known
/// (`base_dir`): a target that cannot be prepared turns the directive into a
/// link and reports why; otherwise the resolver is asked for the prepared
/// path, and the result is that of `resolved_outcome` for the bytes it
/// supplied, or of `failed_outcome` for its error.
pub open spec fn include_outcome(
    errs: Seq<Seq<char>>,
    errs2: Seq<Seq<char>>,
    files: Seq<Seq<char>>,
    files2: Seq<Seq<char>>,
    d: IncludeDirective,
    source: IncludeSource,
    base_dir: Option<Seq<char>>,
    r: IncludeAction,
) -> bool {
    match prepared_target(d.target@, d.target_is_uri, crate::text::opt_string_view(source.path), source.is_primary, base_dir) {
        None => false,
        Some(Err(e)) => is_link(r, d) && errs2 == errs.push(
            "Error preparing target: "@ + crate::resolver::resolve_error_text(e),
        ) && files2 == files,
        Some(Ok(p)) => (exists|raw: Seq<u8>| resolved_outcome(errs, errs2, files, files2, p, d.target@, d.attrs, raw, link_text(d.line_src@, d.target@), r)) || (
        exists|e: ResolveError| failed_outcome(errs, errs2, d, source, e, r) && files2 == files),
    }
}

impl Parser {
    /// What becomes of an include directive whose target the resolver could
    /// not supply: a missing optional file is skipped; otherwise the error
    /// is reported, and a missing or unreadable file leaves an "Unresolved
    /// directive" text in place of the line, any other error the line.
    pub fn include_resolve_failed(&mut self, d: &IncludeDirective, source: &IncludeSource, e: ResolveError) -> (r:
        IncludeAction)
        ensures
            final(self).attrs@ == old(self).attrs@,
            final(self).included_files@ == old(self).included_files@,
            final(self).errors@.len() <= old(self).errors@.len() + 1,
            failed_outcome(strings_of(old(self).errors@), strings_of(final(self).errors@), *d, *source, e, r),
    {
        let is_unresolved = match &e {
            ResolveError::NotFound => {
                if d.attrs.optional {
                    return IncludeAction::ReadNextLine;
                }
                true
            },
            ResolveError::Io(_) => true,
            _ => false,
        };
        let msg = String::from_str("Include error: ").concat(e.message().as_str());
        push_error(&mut self.errors, msg);
        if is_unresolved {
            let text = String::from_str("+++Unresolved directive in ").concat(source.file_name.as_str()).concat(
                " - ",
            ).concat(d.line_src.as_str()).concat("+++");
            IncludeAction::ReadText(text)
        } else {
            IncludeAction::Passthrough
        }
    }

    /// Processes an include directive (`None` when the line is not a valid
    /// one). In secure mode the directive becomes a link; so does a URI
    /// target unless URI reading is allowed (`allow-uri-read`, and a mode
    /// below secure); past the include depth limit, or without a resolver,
    /// the line stays. Otherwise the target is prepared and resolved: its
    /// contents are read in place of the line; a missing optional file is
    /// skipped; a missing or unreadable one leaves an "Unresolved directive"
    /// text; other resolve errors leave the line.
    pub fn try_process_include_directive<R: IncludeResolver>(
        &mut self,
        directive: Option<&IncludeDirective>,
        safe_mode: SafeMode,
        resolver: &mut Option<R>,
        source: &IncludeSource,
    ) -> (r: IncludeAction)
        requires
            source.max_depth matches Some(m) ==> m.0 + m.1 <= u16::MAX,
            directive matches Some(d) ==> {
                &&& d.target_is_uri || (source.is_primary && is_relative(d.target@)) || source.path is Some
                &&& d.attrs.lines matches Some(l) ==> crate::includes::line_ranges_fit(l@)
                &&& -128 <= include_leveloffset(d.attrs) <= 127
            },
        ensures
            final(self).attrs@ == old(self).attrs@,
            !(directive matches Some(d) && resolver_reached(d, safe_mode, old(self).attrs@, old(self).max_include_depth, *source)
                && *old(resolver) is Some) ==> final(self).included_files@ == old(self).included_files@
                && *final(resolver) == *old(resolver),
            match directive {
                None => r == IncludeAction::Passthrough && final(self).errors@ == old(self).errors@,
                Some(d) => if safe_mode == SafeMode::Secure {
                    is_link(r, *d) && final(self).errors@ == old(self).errors@
                } else if d.target_is_uri && (safe_level(safe_mode) > safe_level(SafeMode::Server)
                    || !crate::attrs::is_set_value(crate::attrs::lookup(old(self).attrs@, "allow-uri-read"@))) {
                    is_link(r, *d) && strings_of(final(self).errors@) == strings_of(
                        old(self).errors@,
                    ).push(uri_refused_message())
                } else if crate::parser::depth_exceeded(
                    old(self).max_include_depth,
                    source.max_depth,
                    source.depth,
                ) is Some {
                    r == IncludeAction::Passthrough && strings_of(final(self).errors@) == strings_of(
                        old(self).errors@,
                    ).push(
                        "Maximum include depth of "@ + crate::text::decimal(
                            crate::parser::depth_exceeded(
                                old(self).max_include_depth,
                                source.max_depth,
                                source.depth,
                            )->0 as nat,
                        ) + " exceeded"@,
                    )
                } else if *old(resolver) is None {
                    r == IncludeAction::Passthrough && strings_of(final(self).errors@) == strings_of(
                        old(self).errors@,
                    ).push(no_resolver_message())
                } else {
                    &&& *final(resolver) is Some
                    &&& exists|bd: Option<Seq<char>>| include_via_resolver(
                        strings_of(old(self).errors@),
                        strings_of(final(self).errors@),
                        strings_of(old(self).included_files@),
                        strings_of(final(self).included_files@),
                        (*old(resolver))->0.requested(),
                        (*final(resolver))->0.requested(),
                        *d,
                        *source,
                        bd,
                        r,
                    )
                },
            },
    {
        let d = match directive {
            None => return IncludeAction::Passthrough,
            Some(d) => d,
        };
        if safe_mode == SafeMode::Secure {
            return IncludeAction::SubstituteLink(include_link_line(d.line_src.as_str(), d.target.as_str()));
        }
        if d.target_is_uri && (level(safe_mode) > level(SafeMode::Server) || !self.attrs.is_true("allow-uri-read")) {
            push_error(
                &mut self.errors,
                String::from_str("Cannot include URL contents (allow-uri-read not enabled)"),
            );
            return IncludeAction::SubstituteLink(include_link_line(d.line_src.as_str(), d.target.as_str()));
        }
        if let Some(max_depth) = self.exceeded_max_include_depth(source.max_depth, source.depth) {
            let digits = crate::text::decimal_string(max_depth as u32);
            let msg = String::from_str("Maximum include depth of ").concat(
                crate::text::string_of(digits.as_slice()).as_str(),
            ).concat(" exceeded");
            push_error(&mut self.errors, msg);
            return IncludeAction::Passthrough;
        }
        let mut res = match resolver.take() {
            Some(res) => res,
            None => {
                push_error(&mut self.errors, String::from_str("No resolver supplied for include directive"));
                return IncludeAction::Passthrough;
            },
        };
        assert(*old(resolver) == Some(res));
        let ghost req0 = res.requested();
        assert(req0 == (*old(resolver))->0.requested());
        let base_dir = res.get_base_dir();
        let src_path: Option<&str> = match &source.path {
            Some(p) => Some(p.as_str()),
            None => None,
        };
        let bd: Option<&str> = match &base_dir {
            Some(b) => Some(b.as_str()),
            None => None,
        };
        let ghost bdv = crate::text::opt_string_view(base_dir);
        let ghost errs0 = strings_of(self.errors@);
        let ghost files0 = strings_of(self.included_files@);
        assert(opt_view(bd) == bdv);
        let target = match prepare(d.target.as_str(), d.target_is_uri, src_path, source.is_primary, bd) {
            Ok(t) => t,
            Err(e) => {
                let msg = String::from_str("Error preparing target: ").concat(e.message().as_str());
                push_error(&mut self.errors, msg);
                let link = IncludeAction::SubstituteLink(include_link_line(d.line_src.as_str(), d.target.as_str()));
                assert(include_via_resolver(errs0, strings_of(self.errors@), files0, strings_of(self.included_files@),
                    req0, res.requested(), *d, *source, bdv, link));
                *resolver = Some(res);
                return link;
            },
        };
        let abspath = target.path();
        let ghost tv = crate::resolver::target_view(target);
        let mut buffer: Vec<u8> = Vec::new();
        let resolved = res.resolve(target, &mut buffer);
        assert(requests_after(req0, res.requested(), *d, *source, bdv));
        let r = match resolved {
            Ok(_) => {
                let ghost raw = buffer@;
                let r = self.include_resolved(abspath.as_str(), d.target.as_str(), d.line_src.as_str(), buffer, &d.attrs);
                assert(resolved_outcome(errs0, strings_of(self.errors@), files0, strings_of(self.included_files@),
                    abspath@, d.target@, d.attrs, raw, link_text(d.line_src@, d.target@), r));
                r
            },
            Err(e) => {
                let ghost e0 = e;
                let r = self.include_resolve_failed(d, source, e);
                assert(failed_outcome(errs0, strings_of(self.errors@), *d, *source, e0, r));
                r
            },
        };
        assert(include_via_resolver(errs0, strings_of(self.errors@), files0, strings_of(self.included_files@), req0,
            res.requested(), *d, *source, bdv, r));
        *resolver = Some(res);
        assert((*resolver)->0.requested() == res.requested());
        r
    }
}

} // verus!
