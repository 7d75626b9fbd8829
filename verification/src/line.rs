//! The role of a line, read off the line alone.

use vstd::prelude::*;

verus! {

/// What a line is to the parser.
#[derive(Clone, Copy, Debug, PartialEq, Eq, Structural)]
pub enum LineKind {
    /// Four dashes or more and nothing else: opens or closes the catalog.
    Delimiter,
    /// Begins with a colon: opens an entry.
    Header,
    /// Begins with a tab: one row of a pattern.
    GridRow,
    /// Begins with three spaces: more of the description.
    Continuation,
    /// Empty: closes an entry.
    Blank,
    /// Anything else: passed over.
    Other,
}

/// Whether `line` is made of dashes, and of at least four.
pub open spec fn is_delimiter(line: Seq<char>) -> bool {
    line.len() >= 4 && forall|i: int| 0 <= i < line.len() ==> line[i] == '-'
}

/// The role of `line`. The roles are told apart by how the line begins, so
/// no line has two.
pub open spec fn line_kind(line: Seq<char>) -> LineKind {
    if is_delimiter(line) {
        LineKind::Delimiter
    } else if line.len() > 0 && line[0] == ':' {
        LineKind::Header
    } else if line.len() > 0 && line[0] == '\t' {
        LineKind::GridRow
    } else if line.len() >= 3 && line[0] == ' ' && line[1] == ' ' && line[2] == ' ' {
        LineKind::Continuation
    } else if line.len() == 0 {
        LineKind::Blank
    } else {
        LineKind::Other
    }
}

/// Tells whether a line is a delimiter.
pub fn is_delimiter_line(line: &Vec<char>) -> (delimiter: bool)
    ensures
        delimiter == is_delimiter(line@),
{
    if line.len() < 4 {
        return false;
    }
    let mut i: usize = 0;
    while i < line.len()
        invariant
            i <= line.len(),
            forall|j: int| 0 <= j < i ==> line@[j] == '-',
        decreases line.len() - i,
    {
        if line[i] != '-' {
            return false;
        }
        i += 1;
    }
    true
}

/// Classifies a line.
pub fn classify(line: &Vec<char>) -> (kind: LineKind)
    ensures
        kind == line_kind(line@),
{
    if line.len() == 0 {
        LineKind::Blank
    } else if line[0] == ':' {
        LineKind::Header
    } else if line[0] == '\t' {
        LineKind::GridRow
    } else if line[0] == ' ' {
        if line.len() >= 3 && line[1] == ' ' && line[2] == ' ' {
            LineKind::Continuation
        } else {
            LineKind::Other
        }
    } else if is_delimiter_line(line) {
        LineKind::Delimiter
    } else {
        LineKind::Other
    }
}

} // verus!
