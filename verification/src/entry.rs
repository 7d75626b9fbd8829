//! What an entry comes to: its description, its pattern, and the term that
//! a text in order gives for it.

use crate::error::ParseError;
use crate::grid::row_cells;
use crate::header::{header_of, Header};
use crate::lex::{Cell, TermView};
use crate::line::{is_delimiter, line_kind, LineKind};
use crate::machine::{
    extend_entry, lemma_before_catalog, lemma_header_line_kind, lemma_run_concat,
    lemma_run_settled, open_entry, outcome, parse, run, scan, Entry, Progress,
};
use crate::text::{is_plain_line, join_lines, lemma_split_lines_of_joined, trim};
use vstd::prelude::*;

verus! {

/// The entry after the lines of `body`, none of which is empty.
pub open spec fn grow_entry(entry: Entry, body: Seq<Seq<char>>) -> Entry
    decreases body.len(),
{
    if body.len() == 0 {
        entry
    } else {
        extend_entry(grow_entry(entry, body.drop_last()), body.last())
    }
}

/// Whether no line of `body` is empty, so that none closes an entry.
pub open spec fn unbroken(body: Seq<Seq<char>>) -> bool {
    forall|i: int| 0 <= i < body.len() ==> (#[trigger] body[i]).len() > 0
}

/// Lines that are not empty keep the parser in the entry and go into it
/// one by one; the terms read before are untouched.
pub proof fn lemma_run_in_entry(terms: Seq<TermView>, entry: Entry, body: Seq<Seq<char>>)
    requires
        unbroken(body),
    ensures
        run(Progress::InEntry { terms, entry }, body) == (Progress::InEntry {
            terms,
            entry: grow_entry(entry, body),
        }),
    decreases body.len(),
{
    if body.len() > 0 {
        let front = body.drop_last();
        assert forall|i: int| 0 <= i < front.len() implies (#[trigger] front[i]).len() > 0 by {
            assert(front[i] == body[i]);
        }
        lemma_run_in_entry(terms, entry, front);
        assert(body.last() == body[body.len() - 1]);
    }
}

/// The words that the continuation lines of `body` add to a description:
/// for each of them, in their order, a space and the trimmed line.
pub open spec fn prose(body: Seq<Seq<char>>) -> Seq<char>
    decreases body.len(),
{
    if body.len() == 0 {
        seq![]
    } else if line_kind(body.last()) == LineKind::Continuation {
        prose(body.drop_last()).push(' ') + trim(body.last())
    } else {
        prose(body.drop_last())
    }
}

/// The description of an entry is the piece from its header line and then
/// the pieces of its continuation lines, each trimmed and each behind one
/// space; no other line adds to it. Name and tags stay as the header line
/// gave them.
pub proof fn lemma_description_joins_pieces(entry: Entry, body: Seq<Seq<char>>)
    ensures
        grow_entry(entry, body).term.description == entry.term.description + prose(body),
        grow_entry(entry, body).term.name == entry.term.name,
        grow_entry(entry, body).term.tags == entry.term.tags,
    decreases body.len(),
{
    if body.len() > 0 {
        let front = body.drop_last();
        lemma_description_joins_pieces(entry, front);
        let grown = grow_entry(entry, front);
        if line_kind(body.last()) == LineKind::Continuation {
            assert((entry.term.description + prose(front)).push(' ') + trim(body.last())
                == entry.term.description + (prose(front).push(' ') + trim(body.last())));
        }
    } else {
        assert(entry.term.description + prose(body) == entry.term.description);
    }
}

/// Whether `body` has a grid row.
pub open spec fn has_grid_row(body: Seq<Seq<char>>) -> bool {
    exists|i: int| 0 <= i < body.len() && line_kind(#[trigger] body[i]) == LineKind::GridRow
}

/// Whether some continuation line of `body` stands behind one of its grid
/// rows: from that line on the grid is closed.
pub open spec fn prose_after_grid(body: Seq<Seq<char>>) -> bool {
    exists|i: int, j: int|
        0 <= i < j < body.len() && line_kind(#[trigger] body[i]) == LineKind::GridRow
            && line_kind(#[trigger] body[j]) == LineKind::Continuation
}

/// The grid rows of `body` that make the pattern: those that stand before
/// the grid is closed.
pub open spec fn grid_rows(body: Seq<Seq<char>>) -> Seq<Seq<char>>
    decreases body.len(),
{
    if body.len() == 0 {
        seq![]
    } else if line_kind(body.last()) == LineKind::GridRow && !prose_after_grid(body.drop_last()) {
        grid_rows(body.drop_last()).push(body.last())
    } else {
        grid_rows(body.drop_last())
    }
}

/// The live cells of a grid: those of its rows from top to bottom, each row
/// from left to right and numbered by its place in the grid.
pub open spec fn grid_cells(rows: Seq<Seq<char>>) -> Seq<Cell>
    decreases rows.len(),
{
    if rows.len() == 0 {
        seq![]
    } else {
        grid_cells(rows.drop_last()) + row_cells(rows.last().skip(1), rows.len() - 1)
    }
}

/// The width of a grid: the length of its first row without the tab, and
/// zero where it has no row.
pub open spec fn grid_width(rows: Seq<Seq<char>>) -> nat {
    if rows.len() == 0 {
        0
    } else {
        (rows[0].len() - 1) as nat
    }
}

/// How `prose_after_grid` and `has_grid_row` go from a body to the body
/// with one more line.
proof fn lemma_grid_phase_next(body: Seq<Seq<char>>)
    requires
        body.len() > 0,
    ensures
        has_grid_row(body) <==> has_grid_row(body.drop_last()) || line_kind(body.last())
            == LineKind::GridRow,
        prose_after_grid(body) <==> prose_after_grid(body.drop_last()) || (has_grid_row(
            body.drop_last(),
        ) && line_kind(body.last()) == LineKind::Continuation),
{
    let front = body.drop_last();
    let last = body.len() - 1;
    if has_grid_row(front) {
        let i = choose|i: int|
            0 <= i < front.len() && line_kind(#[trigger] front[i]) == LineKind::GridRow;
        assert(body[i] == front[i]);
        if line_kind(body.last()) == LineKind::Continuation {
            assert(line_kind(body[last]) == LineKind::Continuation);
        }
    }
    if line_kind(body.last()) == LineKind::GridRow {
        assert(line_kind(body[last]) == LineKind::GridRow);
    }
    if has_grid_row(body) {
        let i = choose|i: int|
            0 <= i < body.len() && line_kind(#[trigger] body[i]) == LineKind::GridRow;
        if i < last {
            assert(front[i] == body[i]);
        }
    }
    if prose_after_grid(front) {
        let (i, j) = choose|i: int, j: int|
            0 <= i < j < front.len() && line_kind(#[trigger] front[i]) == LineKind::GridRow
                && line_kind(#[trigger] front[j]) == LineKind::Continuation;
        assert(body[i] == front[i] && body[j] == front[j]);
    }
    if prose_after_grid(body) {
        let (i, j) = choose|i: int, j: int|
            0 <= i < j < body.len() && line_kind(#[trigger] body[i]) == LineKind::GridRow
                && line_kind(#[trigger] body[j]) == LineKind::Continuation;
        assert(front[i] == body[i]);
        if j < last {
            assert(front[j] == body[j]);
        }
    }
}

/// The pattern of an entry is its grid. For an entry fresh from its header
/// line and the lines of `body` behind it: the grid is closed exactly when
/// prose stands behind a grid row; the height counts the rows that stand
/// before that; the width is that of the first of them; and the cells are
/// theirs, row by row.
pub proof fn lemma_pattern_is_the_grid(header: Header, body: Seq<Seq<char>>)
    ensures
        ({
            let entry = grow_entry(open_entry(header), body);
            let rows = grid_rows(body);
            &&& entry.grid_closed == prose_after_grid(body)
            &&& rows.len() > 0 <==> has_grid_row(body)
            &&& entry.term.height == rows.len()
            &&& entry.term.width == grid_width(rows)
            &&& entry.term.cells == grid_cells(rows)
        }),
    decreases body.len(),
{
    if body.len() > 0 {
        let front = body.drop_last();
        lemma_pattern_is_the_grid(header, front);
        lemma_grid_phase_next(body);
        let before = grow_entry(open_entry(header), front);
        let rows = grid_rows(front);
        if line_kind(body.last()) == LineKind::GridRow && !before.grid_closed {
            let grown = rows.push(body.last());
            assert(grown.drop_last() == rows);
            if rows.len() > 0 {
                assert(grown[0] == rows[0]);
            }
        }
    } else {
        assert(!has_grid_row(body));
        assert(!prose_after_grid(body));
    }
}

/// The lines of one entry in a text that is in order: the lines that stand
/// before it since the entry before, its header line, and the lines behind
/// that up to the empty line that closes the entry.
pub struct EntryLines {
    pub gap: Seq<Seq<char>>,
    pub header: Seq<char>,
    pub body: Seq<Seq<char>>,
}

/// Whether `lines` can stand between two entries: none of them is a
/// delimiter and none begins with a colon.
pub open spec fn is_gap(lines: Seq<Seq<char>>) -> bool {
    forall|i: int|
        0 <= i < lines.len() ==> line_kind(#[trigger] lines[i]) != LineKind::Delimiter
            && line_kind(lines[i]) != LineKind::Header
}

impl EntryLines {
    /// Whether these are the lines of an entry: a gap, a header line, and
    /// no empty line in the body.
    pub open spec fn well_formed(self) -> bool {
        is_gap(self.gap) && header_of(self.header) is Some && unbroken(self.body)
    }

    /// The lines as they stand in the text, the closing empty line
    /// included.
    pub open spec fn lines(self) -> Seq<Seq<char>> {
        self.gap.push(self.header) + self.body.push(Seq::<char>::empty())
    }

    /// The term that the entry stands for. Name and tags are those of the
    /// header line; the description is the piece on the header line and
    /// then the continuation lines, each trimmed and behind one space; the
    /// pattern is the grid of the body.
    pub open spec fn term(self) -> TermView {
        let header = header_of(self.header)->Some_0;
        let rows = grid_rows(self.body);
        TermView {
            name: header.name,
            description: header.description + prose(self.body),
            tags: header.tags,
            cells: grid_cells(rows),
            width: grid_width(rows),
            height: rows.len(),
        }
    }
}

/// The lines of some entries, one entry after the other.
pub open spec fn lines_of_entries(entries: Seq<EntryLines>) -> Seq<Seq<char>>
    decreases entries.len(),
{
    if entries.len() == 0 {
        seq![]
    } else {
        lines_of_entries(entries.drop_last()) + entries.last().lines()
    }
}

/// The terms of some entries, in their order.
pub open spec fn terms_of_entries(entries: Seq<EntryLines>) -> Seq<TermView> {
    entries.map_values(|entry: EntryLines| entry.term())
}

/// Lines between entries are passed over.
pub proof fn lemma_run_gap(terms: Seq<TermView>, gap: Seq<Seq<char>>)
    requires
        is_gap(gap),
    ensures
        run(Progress::InCatalog { terms }, gap) == (Progress::InCatalog { terms }),
    decreases gap.len(),
{
    if gap.len() > 0 {
        let front = gap.drop_last();
        assert forall|i: int| 0 <= i < front.len() implies line_kind(#[trigger] front[i])
            != LineKind::Delimiter && line_kind(front[i]) != LineKind::Header by {
            assert(front[i] == gap[i]);
        }
        lemma_run_gap(terms, front);
        assert(gap.last() == gap[gap.len() - 1]);
    }
}

/// The lines of one entry add its term to the terms read before.
pub proof fn lemma_run_entry(terms: Seq<TermView>, entry: EntryLines)
    requires
        entry.well_formed(),
    ensures
        run(Progress::InCatalog { terms }, entry.lines()) == (Progress::InCatalog {
            terms: terms.push(entry.term()),
        }),
{
    let start = Progress::InCatalog { terms };
    let header = header_of(entry.header)->Some_0;
    let opened = open_entry(header);
    let closed = entry.body.push(Seq::<char>::empty());
    lemma_run_gap(terms, entry.gap);
    lemma_header_line_kind(entry.header);
    assert(entry.gap.push(entry.header).drop_last() == entry.gap);
    assert(run(start, entry.gap.push(entry.header)) == (Progress::InEntry {
        terms,
        entry: opened,
    }));
    lemma_run_concat(start, entry.gap.push(entry.header), closed);
    lemma_run_in_entry(terms, opened, entry.body);
    assert(closed.drop_last() == entry.body);
    lemma_description_joins_pieces(opened, entry.body);
    lemma_pattern_is_the_grid(header, entry.body);
    let grown = grow_entry(opened, entry.body).term;
    assert(grown == entry.term());
}

/// The lines of some entries add their terms, in their order, to the terms
/// read before.
pub proof fn lemma_run_entries(terms: Seq<TermView>, entries: Seq<EntryLines>)
    requires
        forall|i: int| 0 <= i < entries.len() ==> (#[trigger] entries[i]).well_formed(),
    ensures
        run(Progress::InCatalog { terms }, lines_of_entries(entries)) == (Progress::InCatalog {
            terms: terms + terms_of_entries(entries),
        }),
    decreases entries.len(),
{
    let start = Progress::InCatalog { terms };
    if entries.len() == 0 {
        assert(terms + terms_of_entries(entries) == terms);
    } else {
        let front = entries.drop_last();
        assert forall|i: int| 0 <= i < front.len() implies (#[trigger] front[i]).well_formed() by {
            assert(front[i] == entries[i]);
        }
        lemma_run_entries(terms, front);
        lemma_run_concat(start, lines_of_entries(front), entries.last().lines());
        assert(entries.last() == entries[entries.len() - 1]);
        lemma_run_entry(terms + terms_of_entries(front), entries.last());
        assert((terms + terms_of_entries(front)).push(entries.last().term()) == terms
            + terms_of_entries(entries));
    }
}

/// What a text in order means. The text is some lines without a
/// delimiter, the delimiter that opens the catalog, the lines of the
/// entries, some lines that begin no entry, the delimiter that closes the
/// catalog, and whatever follows. It parses, and its terms are those of
/// its entries, one for each and in their order.
pub proof fn lemma_catalog_of_entries(
    intro: Seq<Seq<char>>,
    opening: Seq<char>,
    entries: Seq<EntryLines>,
    gap: Seq<Seq<char>>,
    closing: Seq<char>,
    rest: Seq<Seq<char>>,
)
    requires
        forall|i: int| 0 <= i < intro.len() ==> !is_delimiter(#[trigger] intro[i]),
        is_delimiter(opening),
        forall|i: int| 0 <= i < entries.len() ==> (#[trigger] entries[i]).well_formed(),
        is_gap(gap),
        is_delimiter(closing),
    ensures
        outcome(
            scan(intro.push(opening) + lines_of_entries(entries) + gap.push(closing) + rest),
        ) == Ok::<Seq<TermView>, ParseError>(terms_of_entries(entries)),
        terms_of_entries(entries).len() == entries.len(),
{
    let start = Progress::BeforeCatalog;
    let none = Seq::<TermView>::empty();
    let terms = terms_of_entries(entries);
    let head = intro.push(opening);
    lemma_before_catalog(intro);
    assert(head.drop_last() == intro);
    assert(scan(head) == (Progress::InCatalog { terms: none }));
    lemma_run_entries(none, entries);
    assert(none + terms == terms);
    lemma_run_concat(start, head, lines_of_entries(entries));
    lemma_run_gap(terms, gap);
    assert(gap.push(closing).drop_last() == gap);
    assert(run(Progress::InCatalog { terms }, gap.push(closing)) == (Progress::Done { terms }));
    lemma_run_concat(start, head + lines_of_entries(entries), gap.push(closing));
    lemma_run_concat(start, head + lines_of_entries(entries) + gap.push(closing), rest);
    lemma_run_settled(Progress::Done { terms }, rest);
}

/// The same of the text itself: written line by line, a text in order
/// parses into the terms of its entries.
pub proof fn lemma_text_of_entries(
    intro: Seq<Seq<char>>,
    opening: Seq<char>,
    entries: Seq<EntryLines>,
    gap: Seq<Seq<char>>,
    closing: Seq<char>,
    rest: Seq<Seq<char>>,
)
    requires
        forall|i: int| 0 <= i < intro.len() ==> !is_delimiter(#[trigger] intro[i]),
        is_delimiter(opening),
        forall|i: int| 0 <= i < entries.len() ==> (#[trigger] entries[i]).well_formed(),
        is_gap(gap),
        is_delimiter(closing),
        ({
            let lines = intro.push(opening) + lines_of_entries(entries) + gap.push(closing)
                + rest;
            forall|i: int| 0 <= i < lines.len() ==> is_plain_line(#[trigger] lines[i])
        }),
    ensures
        parse(
            join_lines(
                intro.push(opening) + lines_of_entries(entries) + gap.push(closing) + rest,
            ),
        ) == Ok::<Seq<TermView>, ParseError>(terms_of_entries(entries)),
{
    let lines = intro.push(opening) + lines_of_entries(entries) + gap.push(closing) + rest;
    lemma_split_lines_of_joined(lines);
    lemma_catalog_of_entries(intro, opening, entries, gap, closing, rest);
}

} // verus!
