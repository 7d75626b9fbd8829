//! The parser: one pass over the lines of a text, from the line of dashes
//! that opens the catalog to the one that closes it. It is proved to end
//! where the machine of [`crate::machine`] ends.

use crate::error::{ParseError, ParseErrorKind};
use crate::grid::cells_of_row;
use crate::header::{parse_header, Header};
use crate::lex::{Cell, Lexicon, Term, TermView};
use crate::line::{classify, is_delimiter_line, LineKind};
use crate::machine::{
    in_reach, lemma_scan_next, lemma_scan_settled, open_entry, outcome, parse, scan, Entry,
    Progress,
};
use crate::text::{
    append_chars, chars_of, lemma_split_lines_bounds, lines_of, lines_view, strings_view,
    trim_bounds,
};
use vstd::prelude::*;

verus! {

/// What a parse gave, as plain values: the terms of the lexicon, or the
/// failure.
pub open spec fn result_view(parsed: Result<Lexicon, ParseError>) -> Result<
    Seq<TermView>,
    ParseError,
> {
    match parsed {
        Ok(lexicon) => Ok(lexicon@),
        Err(error) => Err(error),
    }
}

/// Parsing is a function of the text: whatever two parses of one text
/// give, they give the same, term for term and field for field, or the
/// same failure.
pub proof fn lemma_same_text_same_lexicon(
    text: Seq<char>,
    first: Result<Lexicon, ParseError>,
    second: Result<Lexicon, ParseError>,
)
    requires
        result_view(first) == parse(text),
        result_view(second) == parse(text),
    ensures
        result_view(first) == result_view(second),
        first is Ok <==> second is Ok,
        first matches Ok(a) ==> second matches Ok(b) && a@ == b@ && a.terms.len()
            == b.terms.len(),
        first matches Err(a) ==> second matches Err(b) && a == b,
{
    if let Ok(a) = first {
        let b = second->Ok_0;
        assert(a@.len() == a.terms.len());
        assert(b@.len() == b.terms.len());
    }
}

/// Reads the lines of an entry, from the one behind its header line up to
/// the empty line that closes it. Gives the term and the position behind
/// that empty line, or `None` where the lines end before it.
fn read_entry(
    lines: &Vec<Vec<char>>,
    at: usize,
    header: (String, Vec<String>, String),
    Ghost(terms): Ghost<Seq<TermView>>,
) -> (read: Option<(Term, usize)>)
    requires
        at <= lines.len(),
        in_reach(lines_view(lines@)),
        scan(lines_view(lines@).take(at as int)) == (Progress::InEntry {
            terms,
            entry: open_entry(
                Header { name: header.0@, tags: strings_view(header.1@), description: header.2@ },
            ),
        }),
    ensures
        match read {
            Some((term, next)) => at < next <= lines.len() && scan(
                lines_view(lines@).take(next as int),
            ) == (Progress::InCatalog { terms: terms.push(term@) }),
            None => scan(lines_view(lines@)) is InEntry,
        },
{
    let ghost all = lines_view(lines@);
    let (name, tags, mut description) = header;
    let mut cells: Vec<Cell> = Vec::new();
    let mut width: usize = 0;
    let mut height: usize = 0;
    let mut row: i32 = 0;
    let mut grid_closed = false;
    let mut i: usize = at;
    while i < lines.len()
        invariant
            at <= i <= lines.len(),
            all == lines_view(lines@),
            in_reach(all),
            height <= i - at,
            row == height,
            scan(all.take(i as int)) == (Progress::InEntry {
                terms,
                entry: Entry {
                    term: TermView {
                        name: name@,
                        description: description@,
                        tags: strings_view(tags@),
                        cells: cells@,
                        width: width as nat,
                        height: height as nat,
                    },
                    grid_closed,
                },
            }),
        decreases lines.len() - i,
    {
        let line = &lines[i];
        proof {
            lemma_scan_next(all, i as int);
            assert(all[i as int] == line@);
        }
        if line.len() == 0 {
            let term = Term { name, description, tags, cells, width, height };
            return Some((term, i + 1));
        }
        match classify(line) {
            LineKind::Continuation => {
                if height > 0 {
                    grid_closed = true;
                }
                let (from, to) = trim_bounds(line, 0, line.len());
                assert(line@.subrange(0, line.len() as int) == line@);
                description.push(' ');
                append_chars(&mut description, line, from, to);
            },
            LineKind::GridRow => {
                if !grid_closed {
                    if height == 0 {
                        width = line.len() - 1;
                    }
                    let mut found = cells_of_row(line, row);
                    cells.append(&mut found);
                    height += 1;
                    row += 1;
                }
            },
            _ => {},
        }
        i += 1;
    }
    assert(all.take(i as int) == all);
    None
}

/// Parses a text that is already split into lines.
pub fn parse_lines(lines: &Vec<Vec<char>>) -> (parsed: Result<Lexicon, ParseError>)
    requires
        in_reach(lines_view(lines@)),
    ensures
        result_view(parsed) == outcome(scan(lines_view(lines@))),
        parsed matches Ok(lexicon) ==> lexicon.terms.len() == lexicon@.len(),
{
    let ghost all = lines_view(lines@);
    let mut i: usize = 0;
    while i < lines.len() && !is_delimiter_line(&lines[i])
        invariant
            i <= lines.len(),
            all == lines_view(lines@),
            scan(all.take(i as int)) == Progress::BeforeCatalog,
        decreases lines.len() - i,
    {
        proof {
            lemma_scan_next(all, i as int);
        }
        i += 1;
    }
    if i >= lines.len() {
        assert(all.take(i as int) == all);
        return Err(ParseError { kind: ParseErrorKind::UnexpectedEnd });
    }
    proof {
        lemma_scan_next(all, i as int);
    }
    i += 1;
    let mut lexicon = Lexicon { terms: Vec::new() };
    assert(lexicon@ == Seq::<TermView>::empty());
    while i < lines.len()
        invariant
            i <= lines.len(),
            all == lines_view(lines@),
            in_reach(all),
            scan(all.take(i as int)) == (Progress::InCatalog { terms: lexicon@ }),
        decreases lines.len() - i,
    {
        let line = &lines[i];
        proof {
            lemma_scan_next(all, i as int);
            assert(all[i as int] == line@);
        }
        match classify(line) {
            LineKind::Delimiter => {
                proof {
                    lemma_scan_settled(all, i + 1);
                }
                return Ok(lexicon);
            },
            LineKind::Header => {
                match parse_header(line) {
                    Some(header) => {
                        match read_entry(lines, i + 1, header, Ghost(lexicon@)) {
                            Some((term, next)) => {
                                assert(lexicon@.push(term@) == lexicon.terms@.push(term).map_values(
                                    |t: Term| t@,
                                ));
                                lexicon.terms.push(term);
                                i = next;
                            },
                            None => {
                                return Err(ParseError { kind: ParseErrorKind::UnexpectedEnd });
                            },
                        }
                    },
                    None => {
                        proof {
                            lemma_scan_settled(all, i + 1);
                        }
                        return Err(ParseError { kind: ParseErrorKind::MalformedHeader });
                    },
                }
            },
            _ => {
                i += 1;
            },
        }
    }
    assert(all.take(i as int) == all);
    Err(ParseError { kind: ParseErrorKind::UnexpectedEnd })
}

/// Parses the text of a lexicon.
///
/// Gives the terms between the two delimiters, in the order of the text,
/// or the failure that stopped the parse; a parse that fails gives no term.
/// The text may hold no more characters than an `i32` counts, since the
/// coordinates of a cell are of that type.
pub fn parse_lexicon(lexicon_txt: String) -> (parsed: Result<Lexicon, ParseError>)
    requires
        lexicon_txt@.len() <= i32::MAX,
    ensures
        result_view(parsed) == parse(lexicon_txt@),
        parsed matches Ok(lexicon) ==> lexicon.terms.len() == lexicon@.len(),
{
    let chars = chars_of(lexicon_txt.as_str());
    let lines = lines_of(&chars);
    proof {
        lemma_split_lines_bounds(chars@);
    }
    parse_lines(&lines)
}

} // verus!
