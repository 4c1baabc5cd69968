//! Where an index term written in parentheses ends.
use vstd::prelude::*;

use crate::line::Line;
use crate::token::TokenKind;

verus! {

/// Where an index term that opens just before `line` is closed: nowhere
/// when the line itself starts by closing parentheses (the term would be
/// empty); otherwise where the scan of the line found the closing
/// parentheses (`line_end`), failing that where the scan of the lines that
/// follow found them (`lines_end`).
pub fn terminates(line: &Line, line_end: Option<usize>, lines_end: Option<usize>) -> (r: Option<usize>)
    ensures
        r == (if line@.len() > 0 && line@[0].0 == TokenKind::CloseParens {
            None
        } else if line_end is Some {
            line_end
        } else {
            lines_end
        }),
{
    if line.starts(TokenKind::CloseParens) {
        None
    } else {
        match line_end {
            Some(n) => Some(n),
            None => lines_end,
        }
    }
}

} // verus!
