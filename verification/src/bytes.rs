//! Byte-buffer helpers: appending ranges, trimming, and the line-oriented
//! specifications shared by include processing and tag selection.
use vstd::prelude::*;


verus! {

/// Appends `src[start..end]` to `dest`.
pub fn extend_range(dest: &mut Vec<u8>, src: &[u8], start: usize, end: usize)
    requires
        start <= end <= src@.len(),
    ensures
        final(dest)@ == old(dest)@ + src@.subrange(start as int, end as int),
{
    let mut i = start;
    while i < end
        invariant
            start <= i <= end <= src@.len(),
            dest@ == old(dest)@ + src@.subrange(start as int, i as int),
        decreases end - i,
    {
        dest.push(src[i]);
        i = i + 1;
        assert(dest@ =~= old(dest)@ + src@.subrange(start as int, i as int));
    }
}

/// Appends all of `src` to `dest`.
pub fn extend_all(dest: &mut Vec<u8>, src: &[u8])
    ensures
        final(dest)@ == old(dest)@ + src@,
{
    assert(src@.subrange(0, src@.len() as int) =~= src@);
    extend_range(dest, src, 0, src.len());
}

/// Appends `n` spaces.
pub fn push_spaces(dest: &mut Vec<u8>, n: usize)
    ensures
        final(dest)@ == old(dest)@ + spaces(n as nat),
{
    let mut i: usize = 0;
    while i < n
        invariant
            0 <= i <= n,
            dest@ == old(dest)@ + spaces(i as nat),
        decreases n - i,
    {
        dest.push(32u8);
        i = i + 1;
        assert(dest@ =~= old(dest)@ + spaces(i as nat));
    }
}

pub open spec fn spaces(n: nat) -> Seq<u8> {
    Seq::new(n, |i: int| 32u8)
}

pub open spec fn is_space_or_tab(b: u8) -> bool {
    b == 32u8 || b == 9u8
}

/// `s` without its trailing spaces and tabs.
pub open spec fn trim_end_ws(s: Seq<u8>) -> Seq<u8>
    decreases s.len(),
{
    if s.len() > 0 && is_space_or_tab(s.last()) {
        trim_end_ws(s.drop_last())
    } else {
        s
    }
}

/// `s` without one trailing carriage return, if it has one.
pub open spec fn strip_cr(s: Seq<u8>) -> Seq<u8> {
    if s.len() > 0 && s.last() == 13u8 {
        s.drop_last()
    } else {
        s
    }
}

/// Every line followed by a newline, concatenated.
pub open spec fn lines_with_newlines(ls: Seq<Seq<u8>>) -> Seq<u8>
    decreases ls.len(),
{
    if ls.len() == 0 {
        Seq::empty()
    } else {
        lines_with_newlines(ls.drop_last()) + ls.last() + seq![crate::lines::newline()]
    }
}

/// The marker line that stands in for a line an include leaves out:
/// `asciidorkinclude::[false]`.
pub open spec fn marker() -> Seq<u8> {
    seq![97u8, 115u8, 99u8, 105u8, 105u8, 100u8, 111u8, 114u8, 107u8, 105u8, 110u8, 99u8, 108u8,
        117u8, 100u8, 101u8, 58u8, 58u8, 91u8, 102u8, 97u8, 108u8, 115u8, 101u8, 93u8]
}

/// The marker line.
pub fn marker_bytes() -> (v: Vec<u8>)
    ensures
        v@ == marker(),
{
    let v: Vec<u8> = vec![97u8, 115u8, 99u8, 105u8, 105u8, 100u8, 111u8, 114u8, 107u8, 105u8, 110u8, 99u8, 108u8,
        117u8, 100u8, 101u8, 58u8, 58u8, 91u8, 102u8, 97u8, 108u8, 115u8, 101u8, 93u8];
    assert(v@ =~= marker());
    v
}

/// Removes trailing spaces and tabs from `bytes`.
pub fn trim_trailing_whitespace(bytes: &mut Vec<u8>)
    ensures
        final(bytes)@ == trim_end_ws(old(bytes)@),
{
    let mut i = bytes.len();
    assert(bytes@.take(i as int) =~= bytes@);
    while i > 0 && (bytes[i - 1] == 32u8 || bytes[i - 1] == 9u8)
        invariant
            0 <= i <= bytes@.len(),
            bytes@ == old(bytes)@,
            trim_end_ws(bytes@.take(i as int)) == trim_end_ws(bytes@),
        decreases i,
    {
        assert(bytes@.take(i as int).drop_last() =~= bytes@.take(i - 1));
        i = i - 1;
    }
    assert(trim_end_ws(bytes@.take(i as int)) == bytes@.take(i as int));
    bytes.truncate(i);
    assert(bytes@ =~= old(bytes)@.take(i as int));
    proof {
        assert(old(bytes)@.take(old(bytes)@.len() as int) =~= old(bytes)@);
    }
}

} // verus!
