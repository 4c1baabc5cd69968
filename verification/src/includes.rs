//! Processing of the bytes an include directive brings in: line endings and
//! trailing whitespace, line-range selection, re-indentation, and encodings.
use vstd::prelude::*;

use crate::bytes::{extend_range, marker_bytes, push_spaces};
use crate::lines::line_bounds;

verus! {

/// The lines of an AsciiDoc include after normalization: every line but the
/// last loses one carriage return before its newline and then its trailing
/// spaces and tabs.
pub open spec fn normalized_lines(ls: Seq<Seq<u8>>) -> Seq<Seq<u8>> {
    Seq::new(
        ls.len(),
        |i: int|
            if i < ls.len() - 1 {
                crate::bytes::trim_end_ws(crate::bytes::strip_cr(ls[i]))
            } else {
                ls[i]
            },
    )
}

/// The bytes of an AsciiDoc include after normalization.
pub open spec fn normalized_asciidoc(b: Seq<u8>) -> Seq<u8> {
    crate::lines::join_lines(normalized_lines(crate::lines::split_lines(b)))
}

/// Whether `ext` is one of the extensions treated as AsciiDoc.
pub open spec fn is_asciidoc_ext(ext: Seq<char>) -> bool {
    ext == ".adoc"@ || ext == ".asciidoc"@ || ext == ".ad"@ || ext == ".asc"@ || ext == ".txt"@
}

/// End of `b[start..end]` once one trailing carriage return and then trailing
/// spaces and tabs are dropped.
fn trimmed_line_end(b: &[u8], start: usize, end: usize) -> (r: usize)
    requires
        start <= end <= b@.len(),
    ensures
        start <= r <= end,
        b@.subrange(start as int, r as int) == crate::bytes::trim_end_ws(
            crate::bytes::strip_cr(b@.subrange(start as int, end as int)),
        ),
{
    let mut e = end;
    if e > start && b[e - 1] == 13u8 {
        e = e - 1;
        assert(b@.subrange(start as int, e as int) =~= b@.subrange(start as int, end as int).drop_last());
    } else {
        assert(b@.subrange(start as int, e as int) =~= b@.subrange(start as int, end as int));
    }
    let ghost stripped = b@.subrange(start as int, e as int);
    while e > start && (b[e - 1] == 32u8 || b[e - 1] == 9u8)
        invariant
            start <= e <= end <= b@.len(),
            crate::bytes::trim_end_ws(b@.subrange(start as int, e as int)) == crate::bytes::trim_end_ws(
                stripped,
            ),
        decreases e,
    {
        assert(b@.subrange(start as int, e as int).drop_last() =~= b@.subrange(start as int, e - 1));
        e = e - 1;
    }
    e
}

/// Normalizes line endings and trailing whitespace of an included AsciiDoc
/// file; files of other extensions are left alone.
pub fn normalize_asciidoc(extension: &str, bytes: &mut Vec<u8>)
    ensures
        is_asciidoc_ext(extension@) ==> final(bytes)@ == normalized_asciidoc(old(bytes)@),
        !is_asciidoc_ext(extension@) ==> final(bytes)@ == old(bytes)@,
{
    if !is_adoc_extension(extension) {
        return;
    }
    let bounds = line_bounds(bytes.as_slice());
    let ghost ls = crate::lines::split_lines(bytes@);
    let ghost outs = normalized_lines(ls);
    let n = bounds.len();
    let mut dest: Vec<u8> = Vec::new();
    let mut k: usize = 0;
    while k < n
        invariant
            n == bounds@.len() == ls.len() == outs.len(),
            n >= 1,
            0 <= k <= n,
            ls == crate::lines::split_lines(bytes@),
            outs == normalized_lines(ls),
            forall|j: int|
                0 <= j < bounds@.len() ==> bounds@[j].0 <= bounds@[j].1 <= bytes@.len()
                    && bytes@.subrange(#[trigger] bounds@[j].0 as int, bounds@[j].1 as int) == ls[j],
            k == 0 ==> dest@.len() == 0,
            k > 0 ==> dest@ == crate::lines::join_lines(outs.take(k as int)),
        decreases n - k,
    {
        let (start, end) = bounds[k];
        let e = if k + 1 < n {
            trimmed_line_end(bytes.as_slice(), start, end)
        } else {
            end
        };
        assert(bytes@.subrange(start as int, e as int) == outs[k as int]);
        if k > 0 {
            dest.push(10u8);
        }
        let ghost before = dest@;
        extend_range(&mut dest, bytes.as_slice(), start, e);
        proof {
            let t = outs.take(k + 1);
            if k > 0 {
                assert(t.drop_last() =~= outs.take(k as int));
                assert(t.last() == outs[k as int]);
            } else {
                assert(t.len() == 1);
                assert(dest@ =~= outs[0]);
            }
        }
        k = k + 1;
    }
    assert(outs.take(n as int) =~= outs);
    *bytes = dest;
}

/// Whether the extension (with its leading dot) names an AsciiDoc file.
pub fn is_adoc_extension(ext: &str) -> (r: bool)
    ensures
        r == is_asciidoc_ext(ext@),
{
    crate::text::str_eq(ext, ".adoc") || crate::text::str_eq(ext, ".asciidoc") || crate::text::str_eq(
        ext,
        ".ad",
    ) || crate::text::str_eq(ext, ".asc") || crate::text::str_eq(ext, ".txt")
}

/// Whether 1-based line number `n` falls in one of the ranges.
pub open spec fn in_some_range(ranges: Seq<core::ops::Range<usize>>, n: int) -> bool {
    exists|i: int| 0 <= i < ranges.len() && (#[trigger] ranges[i]).start <= n < ranges[i].end
}

/// The lines an include keeps by number: a kept line stays, any other is
/// replaced by the marker line; every line is followed by a newline.
pub open spec fn line_selection(ls: Seq<Seq<u8>>, ranges: Seq<core::ops::Range<usize>>) -> Seq<Seq<u8>> {
    Seq::new(
        ls.len(),
        |i: int|
            if in_some_range(ranges, i + 1) {
                ls[i]
            } else {
                crate::bytes::marker()
            },
    )
}

fn any_range_contains(ranges: &Vec<core::ops::Range<usize>>, n: usize) -> (r: bool)
    ensures
        r == in_some_range(ranges@, n as int),
{
    let mut i: usize = 0;
    while i < ranges.len()
        invariant
            0 <= i <= ranges@.len(),
            forall|j: int| 0 <= j < i ==> !((#[trigger] ranges@[j]).start <= n < ranges@[j].end),
        decreases ranges@.len() - i,
    {
        if ranges[i].start <= n && n < ranges[i].end {
            return true;
        }
        i = i + 1;
    }
    false
}

/// Keeps the lines whose 1-based number falls in one of `ranges`, replacing
/// the others by the marker line. An empty set of ranges keeps everything
/// unchanged.
pub fn select_ranges(ranges: &Vec<core::ops::Range<usize>>, bytes: &mut Vec<u8>)
    requires
        old(bytes)@.len() < usize::MAX,
    ensures
        ranges@.len() == 0 ==> final(bytes)@ == old(bytes)@,
        ranges@.len() > 0 ==> final(bytes)@ == crate::bytes::lines_with_newlines(
            line_selection(crate::lines::split_lines(old(bytes)@), ranges@),
        ),
{
    if ranges.len() == 0 {
        return;
    }
    let bounds = line_bounds(bytes.as_slice());
    let ghost ls = crate::lines::split_lines(bytes@);
    let ghost outs = line_selection(ls, ranges@);
    proof {
        crate::lines::lemma_split_lines_len(bytes@);
    }
    let marker = marker_bytes();
    let n = bounds.len();
    let mut dest: Vec<u8> = Vec::new();
    let mut k: usize = 0;
    while k < n
        invariant
            n == bounds@.len() == ls.len() == outs.len(),
            bytes@.len() < usize::MAX,
            n <= bytes@.len() + 1,
            0 <= k <= n,
            marker@ == crate::bytes::marker(),
            outs == line_selection(ls, ranges@),
            forall|j: int|
                0 <= j < bounds@.len() ==> bounds@[j].0 <= bounds@[j].1 <= bytes@.len()
                    && bytes@.subrange(#[trigger] bounds@[j].0 as int, bounds@[j].1 as int) == ls[j],
            dest@ == crate::bytes::lines_with_newlines(outs.take(k as int)),
        decreases n - k,
    {
        let (start, end) = bounds[k];
        if any_range_contains(ranges, k + 1) {
            extend_range(&mut dest, bytes.as_slice(), start, end);
        } else {
            crate::bytes::extend_all(&mut dest, marker.as_slice());
        }
        dest.push(10u8);
        proof {
            let t = outs.take(k + 1);
            assert(t.drop_last() =~= outs.take(k as int));
            assert(t.last() == outs[k as int]);
        }
        k = k + 1;
    }
    assert(outs.take(n as int) =~= outs);
    *bytes = dest;
}


/// Index of the first `..` in `t` at or after `i`.
pub open spec fn find_dotdot(t: Seq<char>, i: int) -> Option<int>
    decreases t.len() - i,
{
    if i < 0 || i + 1 >= t.len() {
        None
    } else if t[i] == '.' && t[i + 1] == '.' {
        Some(i)
    } else {
        find_dotdot(t, i + 1)
    }
}

/// The 1-based line range a trimmed part of a `lines` attribute denotes, as
/// `(start, end)` with `end` exclusive: `n`, `a..b`, `a..` or `a..-1`.
pub open spec fn part_range(t: Seq<char>) -> Option<(int, int)> {
    match find_dotdot(t, 0) {
        Some(i) => {
            let low = t.take(i);
            let high = t.skip(i + 2);
            match crate::text::unsigned_decimal(low) {
                Some(l) => if l > usize::MAX {
                    None
                } else if high == "-1"@ || high.len() == 0 {
                    Some((l, usize::MAX as int))
                } else {
                    match crate::text::unsigned_decimal(high) {
                        Some(h) => if h <= usize::MAX && l <= h {
                            Some((l, h + 1))
                        } else {
                            None
                        },
                        None => None,
                    }
                },
                None => None,
            }
        },
        None => match crate::text::unsigned_decimal(t) {
            Some(n) => if n <= usize::MAX {
                Some((n, n + 1))
            } else {
                None
            },
            None => None,
        },
    }
}

/// The ranges of the parts, in order, skipping parts that denote none.
pub open spec fn collect_ranges(parts: Seq<Seq<char>>) -> Seq<(int, int)>
    decreases parts.len(),
{
    if parts.len() == 0 {
        Seq::empty()
    } else {
        let prev = collect_ranges(parts.drop_last());
        match part_range(crate::text::trim(parts.last())) {
            Some(r) => prev.push(r),
            None => prev,
        }
    }
}

/// The ranges a `lines` attribute denotes.
pub open spec fn line_ranges(s: Seq<char>) -> Seq<(int, int)> {
    collect_ranges(crate::text::split_chars(s, ',', ';'))
}

/// No part of the attribute denotes a range ending past `usize::MAX`.
pub open spec fn line_ranges_fit(s: Seq<char>) -> bool {
    forall|i: int| 0 <= i < line_ranges(s).len() ==> #[trigger] line_ranges(s)[i].1 <= usize::MAX
}

proof fn lemma_collect_ranges_prefix(parts: Seq<Seq<char>>, k: int)
    requires
        0 <= k <= parts.len(),
    ensures
        collect_ranges(parts.take(k)).len() <= collect_ranges(parts).len(),
        forall|i: int|
            0 <= i < collect_ranges(parts.take(k)).len() ==> collect_ranges(parts.take(k))[i]
                == #[trigger] collect_ranges(parts)[i],
    decreases parts.len() - k,
{
    if k < parts.len() {
        lemma_collect_ranges_prefix(parts, k + 1);
        assert(parts.take(k + 1).drop_last() =~= parts.take(k));
    } else {
        assert(parts.take(k) =~= parts);
    }
}

/// The range denoted by the trimmed part `t[start..end]`.
fn range_of_part(t: &[char], start: usize, end: usize) -> (r: Option<core::ops::Range<usize>>)
    requires
        start <= end <= t@.len(),
        part_range(t@.subrange(start as int, end as int)) matches Some(p) ==> p.1 <= usize::MAX,
    ensures
        match part_range(t@.subrange(start as int, end as int)) {
            Some(p) => r matches Some(rg) && rg.start == p.0 && rg.end == p.1,
            None => r is None,
        },
{
    let ghost p = t@.subrange(start as int, end as int);
    let mut i = start;
    let mut found = false;
    while !found && end - i >= 2
        invariant
            start <= i <= end <= t@.len(),
            p == t@.subrange(start as int, end as int),
            find_dotdot(p, (i - start) as int) == find_dotdot(p, 0),
            found ==> i + 1 < end && t@[i as int] == '.' && t@[i + 1] == '.',
        decreases end - i, if found { 0int } else { 1int },
    {
        if t[i] == '.' && t[i + 1] == '.' {
            found = true;
        } else {
            i = i + 1;
        }
    }
    if found {
        assert(find_dotdot(p, 0) == Some((i - start) as int));
        assert(p.take((i - start) as int) =~= t@.subrange(start as int, i as int));
        assert(p.skip((i - start) + 2) =~= t@.subrange(i + 2, end as int));
        match crate::text::parse_unsigned(t, start, i, usize::MAX as u64) {
            Some(low) => {
                let hs = i + 2;
                let is_neg_one = end - hs == 2 && t[hs] == '-' && t[hs + 1] == '1';
                proof {
                    reveal_strlit("-1");
                    if is_neg_one {
                        assert(t@.subrange(hs as int, end as int) =~= "-1"@);
                    } else if end - hs == 2 {
                        assert(t@.subrange(hs as int, end as int)[0] == t@[hs as int]);
                        assert(t@.subrange(hs as int, end as int)[1] == t@[hs + 1]);
                    }
                }
                if is_neg_one || hs == end {
                    Some(core::ops::Range { start: low as usize, end: usize::MAX })
                } else {
                    match crate::text::parse_unsigned(t, hs, end, usize::MAX as u64) {
                        Some(high) => {
                            if low <= high {
                                Some(core::ops::Range { start: low as usize, end: (high + 1) as usize })
                            } else {
                                None
                            }
                        },
                        None => None,
                    }
                }
            },
            None => None,
        }
    } else {
        assert(find_dotdot(p, (i - start) as int) is None);
        match crate::text::parse_unsigned(t, start, end, usize::MAX as u64) {
            Some(n) => Some(core::ops::Range { start: n as usize, end: (n + 1) as usize }),
            None => None,
        }
    }
}

/// Parses the `lines` attribute of an include directive: parts separated by
/// `,` or `;`, each `n`, `a..b`, `a..` or `a..-1`; parts that do not parse,
/// and reversed ranges, are skipped.
pub fn parse_line_ranges(s: &str) -> (r: Vec<core::ops::Range<usize>>)
    requires
        line_ranges_fit(s@),
    ensures
        r@.len() == line_ranges(s@).len(),
        forall|i: int|
            0 <= i < r@.len() ==> (#[trigger] r@[i]).start == line_ranges(s@)[i].0 && r@[i].end
                == line_ranges(s@)[i].1,
{
    let cs = crate::text::chars_of(s);
    let parts = crate::text::split_bounds(cs.as_slice(), ',', ';');
    let ghost ps = crate::text::split_chars(cs@, ',', ';');
    let mut ranges: Vec<core::ops::Range<usize>> = Vec::new();
    let mut k: usize = 0;
    while k < parts.len()
        invariant
            cs@ == s@,
            ps == crate::text::split_chars(cs@, ',', ';'),
            parts@.len() == ps.len(),
            forall|j: int|
                0 <= j < parts@.len() ==> (#[trigger] parts@[j]).0 <= parts@[j].1 <= cs@.len()
                    && cs@.subrange(parts@[j].0 as int, parts@[j].1 as int) == ps[j],
            line_ranges_fit(s@),
            0 <= k <= parts@.len(),
            ranges@.len() == collect_ranges(ps.take(k as int)).len(),
            forall|i: int|
                0 <= i < ranges@.len() ==> (#[trigger] ranges@[i]).start == collect_ranges(
                    ps.take(k as int),
                )[i].0 && ranges@[i].end == collect_ranges(ps.take(k as int))[i].1,
        decreases parts@.len() - k,
    {
        let (ps_start, ps_end) = parts[k];
        let (a, b) = crate::text::trim_bounds(cs.as_slice(), ps_start, ps_end);
        proof {
            let t = ps.take(k + 1);
            assert(t.drop_last() =~= ps.take(k as int));
            assert(t.last() == ps[k as int]);
            lemma_collect_ranges_prefix(ps, k + 1);
            assert(ps.take(ps.len() as int) =~= ps);
            if part_range(cs@.subrange(a as int, b as int)) is Some {
                let idx = collect_ranges(ps.take(k as int)).len() as int;
                assert(collect_ranges(t)[idx] == part_range(cs@.subrange(a as int, b as int))->0);
                assert(line_ranges(s@)[idx] == collect_ranges(t)[idx]);
            }
        }
        let r = range_of_part(cs.as_slice(), a, b);
        match r {
            Some(rg) => {
                ranges.push(rg);
            },
            None => {},
        }
        k = k + 1;
    }
    assert(ps.take(parts@.len() as int) =~= ps);
    ranges
}


/// Number of leading spaces of a line.
pub open spec fn leading_spaces(l: Seq<u8>) -> nat
    decreases l.len(),
{
    if l.len() > 0 && l[0] == 32u8 {
        1 + leading_spaces(l.drop_first())
    } else {
        0
    }
}

/// The least indentation among the lines that are not marker lines.
pub open spec fn min_indent(ls: Seq<Seq<u8>>) -> Option<nat>
    decreases ls.len(),
{
    if ls.len() == 0 {
        None
    } else {
        let prev = min_indent(ls.drop_last());
        if ls.last() == crate::bytes::marker() {
            prev
        } else {
            match prev {
                Some(m) => Some(if leading_spaces(ls.last()) < m { leading_spaces(ls.last()) } else { m }),
                None => Some(leading_spaces(ls.last())),
            }
        }
    }
}

/// Each line indented at least `min` moved to `indent` more than its excess
/// over `min`, with a newline; lines indented less than `min` are dropped.
pub open spec fn reindented(ls: Seq<Seq<u8>>, min: nat, indent: nat) -> Seq<u8>
    decreases ls.len(),
{
    if ls.len() == 0 {
        Seq::empty()
    } else {
        let l = ls.last();
        let lead = leading_spaces(l);
        reindented(ls.drop_last(), min, indent) + if lead >= min {
            crate::bytes::spaces((lead - min + indent) as nat) + l.skip(lead as int) + seq![crate::lines::newline()]
        } else {
            Seq::empty()
        }
    }
}

/// The buffer once its least-indented line (marker lines aside, and not
/// counting a final empty line) sits at `indent` spaces.
pub open spec fn indentation_set(buf: Seq<u8>, indent: nat) -> Seq<u8> {
    let trimmed = if buf.len() > 0 && buf.last() == crate::lines::newline() {
        buf.drop_last()
    } else {
        buf
    };
    match min_indent(crate::lines::split_lines(trimmed)) {
        None => buf,
        Some(m) => if m == indent {
            buf
        } else {
            let out = reindented(crate::lines::split_lines(buf), m, indent);
            if out.len() > 0 {
                out.drop_last()
            } else {
                out
            }
        },
    }
}

proof fn lemma_leading_spaces_bound(l: Seq<u8>)
    ensures
        leading_spaces(l) <= l.len(),
    decreases l.len(),
{
    if l.len() > 0 && l[0] == 32u8 {
        lemma_leading_spaces_bound(l.drop_first());
    }
}

fn count_leading_spaces(b: &[u8], start: usize, end: usize) -> (r: usize)
    requires
        start <= end <= b@.len(),
    ensures
        r == leading_spaces(b@.subrange(start as int, end as int)),
        start + r <= end,
{
    let mut i = start;
    while i < end && b[i] == 32u8
        invariant
            start <= i <= end <= b@.len(),
            leading_spaces(b@.subrange(start as int, end as int)) == (i - start) + leading_spaces(
                b@.subrange(i as int, end as int),
            ),
        decreases end - i,
    {
        assert(b@.subrange(i as int, end as int).drop_first() =~= b@.subrange(i + 1, end as int));
        i = i + 1;
    }
    i - start
}

proof fn lemma_min_indent_bound(ls: Seq<Seq<u8>>, bound: nat)
    requires
        forall|i: int| 0 <= i < ls.len() ==> (#[trigger] ls[i]).len() <= bound,
    ensures
        min_indent(ls) matches Some(m) ==> m <= bound,
    decreases ls.len(),
{
    if ls.len() > 0 {
        lemma_min_indent_bound(ls.drop_last(), bound);
        lemma_leading_spaces_bound(ls.last());
    }
}

/// Re-indents an included buffer so that its least-indented line starts at
/// `indent` spaces, keeping relative indentation (the `indent` attribute).
pub fn set_indentation(indent: usize, buf: &mut Vec<u8>)
    requires
        indent + old(buf)@.len() <= usize::MAX,
    ensures
        final(buf)@ == indentation_set(old(buf)@, indent as nat),
{
    let ghost b0 = buf@;
    let bounds = line_bounds(buf.as_slice());
    let ghost ls = crate::lines::split_lines(buf@);
    let n = bounds.len();
    let ends_nl = buf.len() > 0 && buf[buf.len() - 1] == 10u8;
    let m = if ends_nl { n - 1 } else { n };
    proof {
        if ends_nl {
            assert(ls == crate::lines::split_lines(buf@.drop_last()).push(Seq::<u8>::empty()));
            assert(crate::lines::split_lines(buf@.drop_last()) =~= ls.take(m as int));
        } else {
            assert(ls.take(m as int) =~= ls);
        }
    }
    let mut min: Option<usize> = None;
    let marker = marker_bytes();
    let mut k: usize = 0;
    while k < m
        invariant
            n == bounds@.len() == ls.len(),
            m <= n,
            buf@ == b0,
            ls == crate::lines::split_lines(b0),
            marker@ == crate::bytes::marker(),
            forall|j: int|
                0 <= j < bounds@.len() ==> (#[trigger] bounds@[j]).0 <= bounds@[j].1 <= buf@.len()
                    && buf@.subrange(bounds@[j].0 as int, bounds@[j].1 as int) == ls[j],
            0 <= k <= m,
            match min_indent(ls.take(k as int)) {
                Some(v) => min matches Some(mv) && mv == v,
                None => min is None,
            },
        decreases m - k,
    {
        let (start, end) = bounds[k];
        proof {
            assert(ls.take(k + 1).drop_last() =~= ls.take(k as int));
            assert(ls.take(k + 1).last() == ls[k as int]);
        }
        let is_marker = crate::text::bytes_range_eq(buf.as_slice(), start, end, marker.as_slice());
        if !is_marker {
            let lead = count_leading_spaces(buf.as_slice(), start, end);
            min = match min {
                Some(cur) => Some(if lead < cur { lead } else { cur }),
                None => Some(lead),
            };
        }
        k = k + 1;
    }
    let min_v = match min {
        None => return,
        Some(v) => v,
    };
    if min_v == indent {
        return;
    }
    proof {
        assert forall|i: int| 0 <= i < ls.take(m as int).len() implies (#[trigger] ls.take(
            m as int,
        )[i]).len() <= b0.len() by {
            assert(ls.take(m as int)[i] == ls[i]);
            let bd = bounds@[i];
        }
        lemma_min_indent_bound(ls.take(m as int), b0.len());
        crate::lines::lemma_split_lines_len(b0);
    }
    let mut dest: Vec<u8> = Vec::new();
    let mut k: usize = 0;
    while k < n
        invariant
            n == bounds@.len() == ls.len(),
            buf@ == b0,
            indent + b0.len() <= usize::MAX,
            min_v <= b0.len(),
            ls == crate::lines::split_lines(b0),
            forall|j: int|
                0 <= j < bounds@.len() ==> (#[trigger] bounds@[j]).0 <= bounds@[j].1 <= buf@.len()
                    && buf@.subrange(bounds@[j].0 as int, bounds@[j].1 as int) == ls[j],
            0 <= k <= n,
            dest@ == reindented(ls.take(k as int), min_v as nat, indent as nat),
        decreases n - k,
    {
        let (start, end) = bounds[k];
        proof {
            assert(ls.take(k + 1).drop_last() =~= ls.take(k as int));
            assert(ls.take(k + 1).last() == ls[k as int]);
        }
        let lead = count_leading_spaces(buf.as_slice(), start, end);
        if lead >= min_v {
            let ghost before = dest@;
            push_spaces(&mut dest, lead - min_v + indent);
            extend_range(&mut dest, buf.as_slice(), start + lead, end);
            dest.push(10u8);
            proof {
                assert(buf@.subrange((start + lead) as int, end as int) =~= ls[k as int].skip(lead as int));
                assert(dest@ =~= before + (crate::bytes::spaces((lead - min_v + indent) as nat)
                    + ls[k as int].skip(lead as int) + seq![crate::lines::newline()]));
            }
        } else {
            assert(dest@ =~= dest@ + Seq::<u8>::empty());
        }
        k = k + 1;
    }
    assert(ls.take(n as int) =~= ls);
    if dest.len() > 0 {
        dest.pop();
    }
    *buf = dest;
}


/// The pattern a whole include directive line matches; group 1 is the
/// target.
pub open spec fn valid_include_pattern() -> Seq<char> {
    r"^include::([^\[]+[^\[\s])\[.*\]$"@
}

/// The target of an include directive line, when the line is one.
pub open spec fn include_target_of(line: Seq<char>) -> Option<Seq<char>> {
    if !crate::rx::regex_compiles(valid_include_pattern()) {
        None
    } else {
        match crate::rx::regex_captures(valid_include_pattern(), line) {
            Some(gs) => crate::rx::group_of(gs, 1),
            None => None,
        }
    }
}

/// The target of an include directive line such as `include::a.adoc[]`.
pub fn include_directive_target(line_src: &str) -> (r: Option<String>)
    ensures
        match include_target_of(line_src@) {
            Some(t) => r matches Some(s) && s@ == t,
            None => r is None,
        },
{
    let pattern = r"^include::([^\[]+[^\[\s])\[.*\]$";
    if !crate::rx::compiles(pattern) {
        return None;
    }
    match crate::rx::captures(pattern, line_src) {
        Some(gs) => {
            match crate::rx::group(&gs, 1) {
                Some(t) => Some(t.clone()),
                None => None,
            }
        },
        None => None,
    }
}

/// Whether a target holds a space (it is then wrapped in a `pass:c[]` macro
/// when the directive turns into a link).
pub fn target_has_spaces(target: &str) -> (r: bool)
    ensures
        r == target@.contains(' '),
{
    let cs = crate::text::chars_of(target);
    let mut i: usize = 0;
    while i < cs.len()
        invariant
            0 <= i <= cs@.len(),
            cs@ == target@,
            forall|j: int| 0 <= j < i ==> cs@[j] != ' ',
        decreases cs@.len() - i,
    {
        if cs[i] == ' ' {
            assert(target@[i as int] == ' ');
            return true;
        }
        i = i + 1;
    }
    false
}

/// Whether 1-based line number `n` falls in one of the ranges `a..b`.
pub open spec fn in_some_pair(pairs: Seq<(int, int)>, n: int) -> bool {
    exists|i: int| 0 <= i < pairs.len() && (#[trigger] pairs[i]).0 <= n < pairs[i].1
}

/// The bytes once a `lines` attribute is applied: an attribute naming no
/// range keeps them; otherwise every line outside the ranges becomes the
/// marker line, and each line ends with a newline.
pub open spec fn ranges_selected(l: Seq<char>, b: Seq<u8>) -> Seq<u8> {
    let ps = line_ranges(l);
    let ls = crate::lines::split_lines(b);
    if ps.len() == 0 {
        b
    } else {
        crate::bytes::lines_with_newlines(
            Seq::new(
                ls.len(),
                |i: int|
                    if in_some_pair(ps, i + 1) {
                        ls[i]
                    } else {
                        crate::bytes::marker()
                    },
            ),
        )
    }
}

/// Keeps the lines a `lines` attribute selects; an attribute that denotes
/// no range leaves the bytes alone.
pub fn select_line_ranges(lines: &str, bytes: &mut Vec<u8>)
    requires
        line_ranges_fit(lines@),
        old(bytes)@.len() < usize::MAX,
    ensures
        final(bytes)@ == ranges_selected(lines@, old(bytes)@),
{
    let ranges = parse_line_ranges(lines);
    let ghost b0 = bytes@;
    select_ranges(&ranges, bytes);
    proof {
        let ps = line_ranges(lines@);
        let ls = crate::lines::split_lines(b0);
        if ps.len() > 0 {
            assert forall|n: int| in_some_range(ranges@, n) == in_some_pair(ps, n) by {
                if in_some_range(ranges@, n) {
                    let i = choose|i: int| 0 <= i < ranges@.len() && (#[trigger] ranges@[i]).start <= n < ranges@[i].end;
                    assert(ps[i].0 <= n < ps[i].1);
                }
                if in_some_pair(ps, n) {
                    let i = choose|i: int| 0 <= i < ps.len() && (#[trigger] ps[i]).0 <= n < ps[i].1;
                    assert(ranges@[i].start <= n < ranges@[i].end);
                }
            }
            assert(line_selection(ls, ranges@) =~= Seq::new(
                ls.len(),
                |i: int|
                    if in_some_pair(ps, i + 1) {
                        ls[i]
                    } else {
                        crate::bytes::marker()
                    },
            ));
        }
    }
}

/// The tag selection the `tag` or `tags` attribute asks for: a non-empty
/// `tag` naming one term wins over `tags`.
pub open spec fn attr_selection(tag: Option<Seq<char>>, tags: Option<Seq<char>>) -> Option<Seq<crate::tags::SpecV>> {
    if tag matches Some(t) && t.len() > 0 && crate::tags::spec_of_part(t) is Some {
        Some(seq![crate::tags::spec_of_part(tag->0)->0])
    } else if tags matches Some(ts) && ts.len() > 0 {
        Some(crate::tags::selection_of(tags->0))
    } else {
        None
    }
}

pub open spec fn opt_view(o: Option<&str>) -> Option<Seq<char>> {
    match o {
        Some(s) => Some(s@),
        None => None,
    }
}

/// Applies the `tag` or `tags` attribute of an include to its bytes.
pub fn select_tagged_lines(tag: Option<&str>, tags: Option<&str>, src: &mut Vec<u8>) -> (diags: Vec<
    crate::tags::TagDiagnostic,
>)
    ensures
        match attr_selection(opt_view(tag), opt_view(tags)) {
            Some(sel) => final(src)@ == crate::tags::tagged_selection(sel, old(src)@).0
                && crate::tags::diags_view(diags@) == crate::tags::tagged_selection(sel, old(src)@).1,
            None => final(src)@ == old(src)@ && diags@.len() == 0,
        },
{
    if let Some(t) = tag {
        if !crate::text::str_eq(t, "") {
            proof {
                reveal_strlit("");
                if t@.len() == 0 {
                    assert(t@ =~= ""@);
                }
            }
            if let Some(sp) = crate::tags::parse_spec(t) {
                let mut v: Vec<crate::tags::Spec> = Vec::new();
                v.push(sp);
                let sel = crate::tags::TagSpecs(v);
                assert(sel@ =~= seq![crate::tags::spec_of_part(t@)->0]);
                return crate::tags::select_tagged(&sel, src);
            }
        } else {
            proof {
                reveal_strlit("");
            }
        }
    }
    if let Some(ts) = tags {
        if !crate::text::str_eq(ts, "") {
            proof {
                reveal_strlit("");
                if ts@.len() == 0 {
                    assert(ts@ =~= ""@);
                }
            }
            let sel = crate::tags::parse_selection(ts);
            return crate::tags::select_tagged(&sel, src);
        } else {
            proof {
                reveal_strlit("");
            }
        }
    }
    Vec::new()
}

/// Selects the lines of an include: a `lines` attribute wins over `tag` and
/// `tags`.
pub fn select_lines(lines: Option<&str>, tag: Option<&str>, tags: Option<&str>, bytes: &mut Vec<u8>) -> (diags: Vec<
    crate::tags::TagDiagnostic,
>)
    requires
        lines matches Some(l) ==> line_ranges_fit(l@),
        old(bytes)@.len() < usize::MAX,
    ensures
        lines matches Some(l) ==> diags@.len() == 0 && final(bytes)@ == ranges_selected(l@, old(bytes)@),
        lines is None ==> match attr_selection(opt_view(tag), opt_view(tags)) {
            Some(sel) => final(bytes)@ == crate::tags::tagged_selection(sel, old(bytes)@).0
                && crate::tags::diags_view(diags@) == crate::tags::tagged_selection(sel, old(bytes)@).1,
            None => final(bytes)@ == old(bytes)@ && diags@.len() == 0,
        },
{
    match lines {
        Some(l) => {
            select_line_ranges(l, bytes);
            Vec::new()
        },
        None => select_tagged_lines(tag, tags, bytes),
    }
}

/// Normalizes an included file's bytes: encoding first, then, for AsciiDoc
/// files, line endings and trailing whitespace.
pub fn normalize_include_bytes(extension: &str, encoding: Option<&str>, bytes: &mut Vec<u8>) -> (r: Result<(), &'static str>)
    ensures
        ({
            let out = crate::encoding::encoding_normalized(opt_view(encoding), old(bytes)@);
            match out.1 {
                Some(msg) => r matches Err(e) && e@ == msg && final(bytes)@ == out.0,
                None => r is Ok && (if is_asciidoc_ext(extension@) {
                    final(bytes)@ == normalized_asciidoc(out.0)
                } else {
                    final(bytes)@ == out.0
                }),
            }
        }),
{
    match crate::encoding::normalize_encoding(encoding, bytes) {
        Ok(()) => {},
        Err(e) => {
            return Err(e);
        },
    }
    normalize_asciidoc(extension, bytes);
    Ok(())
}

} // verus!
