//! Why a text is refused.

use vstd::prelude::*;
use vstd::string::StringExecFns;

verus! {

/// What went wrong. A failure is one of structure, where the text ends too
/// early, or one of grammar, where a line is not what its first character
/// announces.
#[derive(Clone, Copy, Debug, PartialEq, Eq, Structural)]
pub enum ParseErrorKind {
    /// Structure: the text ends where a delimiter, or the empty line that
    /// closes an entry, was still to come.
    UnexpectedEnd,
    /// Grammar: a line that begins with a colon is no header line.
    MalformedHeader,
    /// Grammar: a line that was to be a grid row does not begin with a tab.
    MalformedRow,
}

/// The failure of a parse. A parse that fails hands out no term at all.
#[derive(Clone, Copy, Debug, PartialEq, Eq, Structural)]
pub struct ParseError {
    pub kind: ParseErrorKind,
}

impl ParseError {
    /// Whether the failure is one of structure.
    pub open spec fn is_structural(self) -> bool {
        self.kind == ParseErrorKind::UnexpectedEnd
    }

    /// Whether the failure is one of grammar.
    pub open spec fn is_grammar(self) -> bool {
        self.kind != ParseErrorKind::UnexpectedEnd
    }

    /// The words that describe a failure of this kind.
    pub open spec fn description_text(self) -> Seq<char> {
        match self.kind {
            ParseErrorKind::UnexpectedEnd => "Unexpected end of input"@,
            ParseErrorKind::MalformedHeader => "Can't parse term name."@,
            ParseErrorKind::MalformedRow => "Can't parse cells line."@,
        }
    }

    /// The failure in words.
    pub fn description(&self) -> (text: String)
        ensures
            text@ == self.description_text(),
    {
        match self.kind {
            ParseErrorKind::UnexpectedEnd => String::from_str("Unexpected end of input"),
            ParseErrorKind::MalformedHeader => String::from_str("Can't parse term name."),
            ParseErrorKind::MalformedRow => String::from_str("Can't parse cells line."),
        }
    }

    /// The failure as a message: its description behind `Parse error: `.
    pub fn to_string(&self) -> (text: String)
        ensures
            text@ == "Parse error: "@ + self.description_text(),
    {
        let mut text = String::from_str("Parse error: ");
        let description = self.description();
        text.append(description.as_str());
        text
    }
}

/// No two kinds share a description, so a message tells the kind of the
/// failure.
pub proof fn lemma_descriptions_differ(a: ParseError, b: ParseError)
    ensures
        a.description_text() == b.description_text() <==> a == b,
{
    reveal_strlit("Unexpected end of input");
    reveal_strlit("Can't parse term name.");
    reveal_strlit("Can't parse cells line.");
    if a.kind != b.kind {
        assert(a.description_text().len() != b.description_text().len()
            || a.description_text()[0] != b.description_text()[0]);
    }
}

} // verus!
