//! When a parse fails and when it succeeds, read off the lines of the text.

use crate::entry::{lemma_run_in_entry, unbroken};
use crate::error::{ParseError, ParseErrorKind};
use crate::header::header_of;
use crate::lex::TermView;
use crate::line::{is_delimiter, line_kind, LineKind};
use crate::machine::{
    lemma_before_catalog, lemma_header_line_kind, lemma_run_concat, lemma_run_settled,
    open_entry, outcome, run, scan, step, Progress,
};
use vstd::prelude::*;

verus! {

/// A text that ends inside an entry fails on its structure: where a header
/// line stands between entries and no empty line follows it, the parse
/// ends with `UnexpectedEnd`, and with no term.
pub proof fn lemma_unclosed_entry_fails(
    before: Seq<Seq<char>>,
    header: Seq<char>,
    body: Seq<Seq<char>>,
)
    requires
        scan(before) is InCatalog,
        header_of(header) is Some,
        unbroken(body),
    ensures
        outcome(scan(before.push(header) + body)) == Err::<Seq<TermView>, ParseError>(
            ParseError { kind: ParseErrorKind::UnexpectedEnd },
        ),
{
    let terms = scan(before)->InCatalog_terms;
    let entry = open_entry(header_of(header)->Some_0);
    lemma_header_line_kind(header);
    assert(before.push(header).drop_last() == before);
    assert(scan(before.push(header)) == (Progress::InEntry { terms, entry }));
    lemma_run_concat(Progress::BeforeCatalog, before.push(header), body);
    lemma_run_in_entry(terms, entry, body);
}

/// A line that begins with a colon where an entry may begin, and is no
/// header line, fails the whole parse on its grammar: whatever terms were
/// read before it and whatever follows it, the parse ends with
/// `MalformedHeader`, and with no term.
pub proof fn lemma_malformed_header_fails(
    before: Seq<Seq<char>>,
    line: Seq<char>,
    after: Seq<Seq<char>>,
)
    requires
        scan(before) is InCatalog,
        line.len() > 0,
        line[0] == ':',
        header_of(line) is None,
    ensures
        outcome(scan(before.push(line) + after)) == Err::<Seq<TermView>, ParseError>(
            ParseError { kind: ParseErrorKind::MalformedHeader },
        ),
{
    lemma_header_line_kind(line);
    assert(before.push(line).drop_last() == before);
    assert(scan(before.push(line)) == Progress::Failed);
    lemma_run_concat(Progress::BeforeCatalog, before.push(line), after);
    lemma_run_settled(Progress::Failed, after);
}

/// The parse fails on its grammar only behind such a line: some line that
/// begins with a colon and is no header line stands where an entry may
/// begin.
pub proof fn lemma_grammar_failure_has_a_line(lines: Seq<Seq<char>>)
    requires
        scan(lines) is Failed,
    ensures
        exists|at: int|
            0 <= at < lines.len() && scan(#[trigger] lines.take(at)) is InCatalog && lines[at].len()
                > 0 && lines[at][0] == ':' && header_of(lines[at]) is None,
    decreases lines.len(),
{
    let front = lines.drop_last();
    if scan(front) is Failed {
        lemma_grammar_failure_has_a_line(front);
        let at = choose|at: int|
            0 <= at < front.len() && scan(#[trigger] front.take(at)) is InCatalog && front[at].len()
                > 0 && front[at][0] == ':' && header_of(front[at]) is None;
        assert(lines.take(at) == front.take(at));
        assert(lines[at] == front[at]);
    } else {
        let at = lines.len() - 1;
        assert(lines.take(at) == front);
    }
}

/// The number of lines of `lines` that begin with a colon.
pub open spec fn count_headers(lines: Seq<Seq<char>>) -> nat
    decreases lines.len(),
{
    if lines.len() == 0 {
        0
    } else if line_kind(lines.last()) == LineKind::Header {
        count_headers(lines.drop_last()) + 1
    } else {
        count_headers(lines.drop_last())
    }
}

/// Whether an empty line closes the entry that line `at` of `section`
/// opens, before the next line that begins with a colon and before the
/// section ends.
pub open spec fn closed_behind(section: Seq<Seq<char>>, at: int) -> bool {
    exists|end: int|
        at < end < section.len() && (#[trigger] section[end]).len() == 0 && forall|j: int|
            at < j < end ==> line_kind(#[trigger] section[j]) != LineKind::Header
}

/// Whether the lines between the two delimiters are in order: none of them
/// is a delimiter, each one that begins with a colon is a header line, and
/// each of those has its entry closed behind it.
pub open spec fn tidy(section: Seq<Seq<char>>) -> bool {
    &&& forall|i: int| 0 <= i < section.len() ==> !is_delimiter(#[trigger] section[i])
    &&& forall|i: int|
        0 <= i < section.len() && line_kind(#[trigger] section[i]) == LineKind::Header
            ==> header_of(section[i]) is Some && closed_behind(section, i)
}

/// The number of entries that the parser has opened when it stands at
/// `progress`: the terms it has read, and the entry it is in.
pub open spec fn entries_opened(progress: Progress) -> nat {
    match progress {
        Progress::BeforeCatalog => 0,
        Progress::InCatalog { terms } => terms.len(),
        Progress::InEntry { terms, entry } => terms.len() + 1,
        Progress::Done { terms } => terms.len(),
        Progress::Failed => 0,
    }
}

/// Whether the parser, `upto` lines into a section, is in an entry that
/// some header line before opened and no empty line since has closed.
pub open spec fn entry_open_since(section: Seq<Seq<char>>, upto: int) -> bool {
    exists|at: int|
        0 <= at < upto && line_kind(#[trigger] section[at]) == LineKind::Header && forall|j: int|
            at < j < upto ==> (#[trigger] section[j]).len() > 0
}

/// Through a tidy section the parser goes from entry to entry: after any
/// number of its lines it has opened one entry for each header line so far,
/// and where it is in an entry, that entry is still open.
proof fn lemma_tidy_section(terms: Seq<TermView>, section: Seq<Seq<char>>, upto: nat)
    requires
        tidy(section),
        upto <= section.len(),
    ensures
        ({
            let progress = run(Progress::InCatalog { terms }, section.take(upto as int));
            &&& progress is InCatalog || progress is InEntry
            &&& entries_opened(progress) == terms.len() + count_headers(section.take(upto as int))
            &&& progress is InEntry ==> entry_open_since(section, upto as int)
        }),
    decreases upto,
{
    if upto > 0 {
        let at = upto - 1;
        let line = section[at];
        lemma_tidy_section(terms, section, at as nat);
        assert(section.take(upto as int).drop_last() == section.take(at));
        let before = run(Progress::InCatalog { terms }, section.take(at));
        let after = run(Progress::InCatalog { terms }, section.take(upto as int));
        assert(after == step(before, line));
        if before is InEntry {
            let opened = choose|opened: int|
                0 <= opened < at && line_kind(#[trigger] section[opened]) == LineKind::Header
                    && forall|j: int| opened < j < at ==> (#[trigger] section[j]).len() > 0;
            if line.len() > 0 {
                assert forall|j: int| opened < j < upto implies (#[trigger] section[j]).len()
                    > 0 by {}
                if line_kind(line) == LineKind::Header {
                    let end = choose|end: int|
                        opened < end < section.len() && (#[trigger] section[end]).len() == 0
                            && forall|j: int|
                            opened < j < end ==> line_kind(#[trigger] section[j])
                                != LineKind::Header;
                    if end < at {
                        assert(section[end].len() > 0);
                    }
                    assert(false);
                }
            }
        } else {
            if line_kind(line) == LineKind::Header {
                assert(line_kind(section[at]) == LineKind::Header);
            }
        }
    }
}

/// A text in order parses, and gives one term for each of its header
/// lines. The text is some lines without a delimiter, the delimiter that
/// opens the catalog, a tidy section, the delimiter that closes the
/// catalog, and whatever follows.
pub proof fn lemma_tidy_catalog_parses(
    intro: Seq<Seq<char>>,
    opening: Seq<char>,
    section: Seq<Seq<char>>,
    closing: Seq<char>,
    rest: Seq<Seq<char>>,
)
    requires
        forall|i: int| 0 <= i < intro.len() ==> !is_delimiter(#[trigger] intro[i]),
        is_delimiter(opening),
        is_delimiter(closing),
        tidy(section),
    ensures
        outcome(scan(intro.push(opening) + section.push(closing) + rest)) matches Ok(terms)
            && terms.len() == count_headers(section),
{
    let start = Progress::BeforeCatalog;
    let none = Seq::<TermView>::empty();
    lemma_before_catalog(intro);
    assert(intro.push(opening).drop_last() == intro);
    assert(scan(intro.push(opening)) == (Progress::InCatalog { terms: none }));
    lemma_tidy_section(none, section, section.len());
    assert(section.take(section.len() as int) == section);
    let inside = run(Progress::InCatalog { terms: none }, section);
    if inside is InEntry {
        let opened = choose|opened: int|
            0 <= opened < section.len() && line_kind(#[trigger] section[opened])
                == LineKind::Header && forall|j: int|
                opened < j < section.len() ==> (#[trigger] section[j]).len() > 0;
        assert(closed_behind(section, opened));
        assert(false);
    }
    let terms = inside->InCatalog_terms;
    assert(section.push(closing).drop_last() == section);
    assert(run(Progress::InCatalog { terms: none }, section.push(closing)) == (Progress::Done {
        terms,
    }));
    lemma_run_concat(start, intro.push(opening), section.push(closing));
    lemma_run_concat(start, intro.push(opening) + section.push(closing), rest);
    lemma_run_settled(Progress::Done { terms }, rest);
}

} // verus!
