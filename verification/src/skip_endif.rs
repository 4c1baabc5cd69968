//! Skipping the lines of a conditional block whose condition failed, up to
//! the `endif` that closes it, with nested conditionals counted.
use vstd::prelude::*;
use vstd::string::StringExecFns;

use crate::parser::Parser;

verus! {

/// What a skipped line is, as far as nesting goes.
#[derive(Debug, Clone, Copy, PartialEq, Eq, Structural)]
pub enum SkippedLine {
    /// An `endif::` directive line; `true` where it is a well-formed
    /// `endif::[]` directive, which closes a level.
    Endif(bool),
    /// An `ifdef::` or `ifndef::` directive, which opens a level.
    Opening,
    /// Any other line.
    Other,
}

/// The index of the line that closes the block, reading from `from` with
/// `depth` levels open; `None` where the lines end first.
pub open spec fn closing_index(lines: Seq<SkippedLine>, depth: nat, from: int) -> Option<int>
    decreases lines.len() - from,
{
    if from < 0 || from >= lines.len() {
        None
    } else {
        match lines[from] {
            SkippedLine::Endif(true) => if depth <= 1 {
                Some(from)
            } else {
                closing_index(lines, (depth - 1) as nat, from + 1)
            },
            SkippedLine::Opening => closing_index(lines, depth + 1, from + 1),
            _ => closing_index(lines, depth, from + 1),
        }
    }
}

/// How many lines of `lines[0..n]` open a level.
pub open spec fn openings(lines: Seq<SkippedLine>, n: int) -> nat
    decreases n,
{
    if n <= 0 {
        0
    } else {
        openings(lines, n - 1) + if lines[n - 1] == SkippedLine::Opening { 1nat } else { 0nat }
    }
}

/// How many lines of `lines[0..n]` close a level.
pub open spec fn closings(lines: Seq<SkippedLine>, n: int) -> nat
    decreases n,
{
    if n <= 0 {
        0
    } else {
        closings(lines, n - 1) + if lines[n - 1] == SkippedLine::Endif(true) { 1nat } else { 0nat }
    }
}

/// The message reported for a conditional block that is never closed.
pub open spec fn unclosed_message() -> Seq<char> {
    "This ifdef directive was never closed"@
}

/// The index of the line that closes a conditional block whose first line
/// is `lines[0]`; `None` where the lines end first.
pub fn closing_endif(lines: &[SkippedLine]) -> (r: Option<usize>)
    ensures
        match closing_index(lines@, 1, 0) {
            Some(i) => r == Some(i as usize),
            None => r is None,
        },
{
    // levels open beyond the block's own
    let mut nested: usize = 0;
    let mut i: usize = 0;
    while i < lines.len()
        invariant
            0 <= i <= lines@.len(),
            nested <= i,
            closing_index(lines@, 1, 0) == closing_index(lines@, (nested + 1) as nat, i as int),
        decreases lines@.len() - i,
    {
        match lines[i] {
            SkippedLine::Endif(true) => {
                if nested == 0 {
                    return Some(i);
                }
                nested = nested - 1;
            },
            SkippedLine::Opening => {
                nested = nested + 1;
            },
            _ => {},
        }
        i = i + 1;
    }
    None
}

impl Parser {
    /// Skips the lines of a conditional block whose condition failed: the
    /// index of the line that closes it, or `None`, with an error reported,
    /// where the lines end first.
    pub fn skip_lines_until_endif(&mut self, lines: &[SkippedLine]) -> (r: Option<usize>)
        ensures
            match closing_index(lines@, 1, 0) {
                Some(i) => r == Some(i as usize) && final(self).errors@ == old(self).errors@,
                None => r is None && final(self).errors@.len() == old(self).errors@.len() + 1
                    && final(self).errors@.last()@ == unclosed_message()
                    && final(self).errors@.drop_last() == old(self).errors@,
            },
            final(self).attrs == old(self).attrs,
            final(self).ifdef_stack == old(self).ifdef_stack,
    {
        let r = closing_endif(lines);
        if r.is_none() {
            self.errors.push(String::from_str("This ifdef directive was never closed"));
            assert(self.errors@.drop_last() =~= old(self).errors@);
        }
        r
    }
}

/// Reading on from `from` with `depth` levels open, the closing line found
/// leaves every opened level closed: `depth - 1` more levels close than open
/// before it.
pub proof fn lemma_closing_balances(lines: Seq<SkippedLine>, depth: nat, from: int)
    requires
        0 <= from,
        depth >= 1,
        closing_index(lines, depth, from) is Some,
    ensures
        ({
            let i = closing_index(lines, depth, from)->0;
            &&& from <= i < lines.len()
            &&& lines[i] == SkippedLine::Endif(true)
            &&& closings(lines, i) - closings(lines, from) + 1 == openings(lines, i) - openings(lines, from) + depth
        }),
    decreases lines.len() - from,
{
    match lines[from] {
        SkippedLine::Endif(true) => if depth > 1 {
            lemma_closing_balances(lines, (depth - 1) as nat, from + 1);
        },
        SkippedLine::Opening => {
            lemma_closing_balances(lines, depth + 1, from + 1);
        },
        _ => {
            lemma_closing_balances(lines, depth, from + 1);
        },
    }
}

} // verus!
