//! What parsing means: a machine that reads a text line by line.
//!
//! The machine stands before the catalog, in it, in one of its entries or
//! behind it, and [`step`] says where one more line takes it. Everything
//! that the parser promises is stated over this machine. What follows from
//! it for whole entries and whole texts is proved in [`crate::entry`] and
//! [`crate::verdict`].

use crate::error::{ParseError, ParseErrorKind};
use crate::grid::row_cells;
use crate::header::{header_of, Header};
use crate::lex::TermView;
use crate::line::{is_delimiter, line_kind, LineKind};
use crate::text::{split_lines, trim};
use vstd::prelude::*;

verus! {

/// An entry that is being read: the term as far as the lines read so far
/// make it, and whether its grid is closed. The height of the term counts
/// the grid rows read.
pub struct Entry {
    pub term: TermView,
    pub grid_closed: bool,
}

/// The entry as its header line leaves it: no cell and no row yet.
pub open spec fn open_entry(header: Header) -> Entry {
    Entry {
        term: TermView {
            name: header.name,
            description: header.description,
            tags: header.tags,
            cells: seq![],
            width: 0,
            height: 0,
        },
        grid_closed: false,
    }
}

/// The entry after a continuation line. Its trimmed text joins the
/// description behind one space, and a grid that has a row is closed from
/// here on.
pub open spec fn add_prose(entry: Entry, line: Seq<char>) -> Entry {
    Entry {
        term: TermView {
            description: entry.term.description.push(' ') + trim(line),
            ..entry.term
        },
        grid_closed: entry.grid_closed || entry.term.height > 0,
    }
}

/// The entry after a grid row. A closed grid takes no row. An open one
/// takes the cells of the row, numbered by the rows before it; the first
/// row sets the width, by its length without the tab.
pub open spec fn add_row(entry: Entry, line: Seq<char>) -> Entry {
    if entry.grid_closed {
        entry
    } else {
        Entry {
            term: TermView {
                cells: entry.term.cells + row_cells(line.skip(1), entry.term.height as int),
                width: if entry.term.height == 0 {
                    (line.len() - 1) as nat
                } else {
                    entry.term.width
                },
                height: entry.term.height + 1,
                ..entry.term
            },
            grid_closed: false,
        }
    }
}

/// The entry after one more line that is not empty. Lines that neither
/// continue the description nor draw a row leave it as it is.
pub open spec fn extend_entry(entry: Entry, line: Seq<char>) -> Entry {
    match line_kind(line) {
        LineKind::Continuation => add_prose(entry, line),
        LineKind::GridRow => add_row(entry, line),
        _ => entry,
    }
}

/// Where the parser stands after some lines.
pub enum Progress {
    /// No delimiter yet.
    BeforeCatalog,
    /// In the catalog and between entries, with the terms read so far.
    InCatalog { terms: Seq<TermView> },
    /// In an entry.
    InEntry { terms: Seq<TermView>, entry: Entry },
    /// Behind the delimiter that closes the catalog.
    Done { terms: Seq<TermView> },
    /// Behind a line that begins with a colon where an entry may begin, and
    /// is no header line.
    Failed,
}

/// Where the parser stands after one more line.
///
/// Before the catalog only a delimiter counts. Between entries a delimiter
/// closes the catalog, a line with a colon opens an entry or, where it is no
/// header line, fails the parse, and all else is passed over. In an entry
/// the empty line closes it and hands the term over; every other line goes
/// to the entry, a delimiter or a colon too. Once the catalog is closed or
/// the parse has failed, no line changes anything.
pub open spec fn step(progress: Progress, line: Seq<char>) -> Progress {
    match progress {
        Progress::BeforeCatalog => if is_delimiter(line) {
            Progress::InCatalog { terms: seq![] }
        } else {
            Progress::BeforeCatalog
        },
        Progress::InCatalog { terms } => match line_kind(line) {
            LineKind::Delimiter => Progress::Done { terms },
            LineKind::Header => match header_of(line) {
                Some(header) => Progress::InEntry { terms, entry: open_entry(header) },
                None => Progress::Failed,
            },
            _ => Progress::InCatalog { terms },
        },
        Progress::InEntry { terms, entry } => if line.len() == 0 {
            Progress::InCatalog { terms: terms.push(entry.term) }
        } else {
            Progress::InEntry { terms, entry: extend_entry(entry, line) }
        },
        Progress::Done { terms } => progress,
        Progress::Failed => progress,
    }
}

/// Where the parser stands after `lines`, if it stood at `progress` before
/// them.
pub open spec fn run(progress: Progress, lines: Seq<Seq<char>>) -> Progress
    decreases lines.len(),
{
    if lines.len() == 0 {
        progress
    } else {
        step(run(progress, lines.drop_last()), lines.last())
    }
}

/// Where the parser stands after all of `lines`, read from the start.
pub open spec fn scan(lines: Seq<Seq<char>>) -> Progress {
    run(Progress::BeforeCatalog, lines)
}

/// What the parse comes to when the lines end at `progress`: the terms
/// where the catalog was closed, a failure of grammar where a header line
/// was refused, and a failure of structure wherever else the text ends.
pub open spec fn outcome(progress: Progress) -> Result<Seq<TermView>, ParseError> {
    match progress {
        Progress::Done { terms } => Ok(terms),
        Progress::Failed => Err(ParseError { kind: ParseErrorKind::MalformedHeader }),
        _ => Err(ParseError { kind: ParseErrorKind::UnexpectedEnd }),
    }
}

/// The terms that `text` holds, or why it holds none.
pub open spec fn parse(text: Seq<char>) -> Result<Seq<TermView>, ParseError> {
    outcome(scan(split_lines(text)))
}

/// Whether the positions of `lines` fit the coordinates of a cell: no more
/// lines and no longer line than an `i32` counts.
pub open spec fn in_reach(lines: Seq<Seq<char>>) -> bool {
    &&& lines.len() <= i32::MAX
    &&& forall|i: int| 0 <= i < lines.len() ==> (#[trigger] lines[i]).len() <= i32::MAX
}

/// Reading line `at` is one step from where the lines before it led.
pub proof fn lemma_scan_next(lines: Seq<Seq<char>>, at: int)
    requires
        0 <= at < lines.len(),
    ensures
        scan(lines.take(at + 1)) == step(scan(lines.take(at)), lines[at]),
{
    assert(lines.take(at + 1).drop_last() == lines.take(at));
}

/// Reading two runs of lines one after the other is reading them as one.
pub proof fn lemma_run_concat(progress: Progress, first: Seq<Seq<char>>, second: Seq<Seq<char>>)
    ensures
        run(progress, first + second) == run(run(progress, first), second),
    decreases second.len(),
{
    if second.len() == 0 {
        assert(first + second == first);
    } else {
        assert((first + second).drop_last() == first + second.drop_last());
        lemma_run_concat(progress, first, second.drop_last());
    }
}

/// From a closed catalog or a failed parse no lines lead anywhere else.
pub proof fn lemma_run_settled(progress: Progress, lines: Seq<Seq<char>>)
    requires
        progress is Done || progress is Failed,
    ensures
        run(progress, lines) == progress,
    decreases lines.len(),
{
    if lines.len() > 0 {
        lemma_run_settled(progress, lines.drop_last());
    }
}

/// Once the catalog is closed or the parse has failed, the rest of the
/// lines is not looked at.
pub proof fn lemma_scan_settled(lines: Seq<Seq<char>>, at: int)
    requires
        0 <= at <= lines.len(),
        scan(lines.take(at)) is Done || scan(lines.take(at)) is Failed,
    ensures
        scan(lines) == scan(lines.take(at)),
    decreases lines.len(),
{
    if at == lines.len() {
        assert(lines.take(at) == lines);
    } else {
        assert(lines.drop_last().take(at) == lines.take(at));
        lemma_scan_settled(lines.drop_last(), at);
    }
}

/// No line takes the parser back before the catalog.
pub proof fn lemma_never_before_again(progress: Progress, line: Seq<char>)
    requires
        !(progress is BeforeCatalog),
    ensures
        !(step(progress, line) is BeforeCatalog),
{
}

/// The parser is still before the catalog exactly when no line so far is a
/// delimiter.
pub proof fn lemma_before_catalog(lines: Seq<Seq<char>>)
    ensures
        scan(lines) is BeforeCatalog <==> forall|i: int|
            0 <= i < lines.len() ==> !is_delimiter(#[trigger] lines[i]),
    decreases lines.len(),
{
    if lines.len() > 0 {
        let front = lines.drop_last();
        lemma_before_catalog(front);
        if scan(front) is BeforeCatalog {
            assert forall|i: int| 0 <= i < lines.len() - 1 implies !is_delimiter(
                #[trigger] lines[i],
            ) by {
                assert(lines[i] == front[i]);
            }
        } else {
            let i = choose|i: int| 0 <= i < front.len() && is_delimiter(#[trigger] front[i]);
            assert(lines[i] == front[i]);
            lemma_never_before_again(scan(front), lines.last());
        }
    }
}

/// A header line begins with a colon, and so has the role of one.
pub proof fn lemma_header_line_kind(line: Seq<char>)
    requires
        line.len() > 0,
        line[0] == ':',
    ensures
        line_kind(line) == LineKind::Header,
{
}

} // verus!
