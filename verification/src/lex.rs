//! The data model: cells, terms and the lexicon that owns them.

use crate::text::strings_view;
use vstd::prelude::*;

verus! {

/// One live cell of a pattern.
#[derive(Clone, Copy, Debug, PartialEq, Eq, Hash, Structural)]
pub struct Cell {
    /// Horizontal position: the column of the cell in its grid row.
    pub x: i32,
    /// Vertical position: the number of the grid row, counted from zero.
    pub y: i32,
}

/// One entry of the lexicon.
#[derive(Clone, Debug, PartialEq, Eq)]
pub struct Term {
    /// Name of the term.
    pub name: String,
    /// Prose of the term. Links to other terms stand in curly braces and are
    /// kept as written.
    pub description: String,
    /// Labels from the header line, in the order written.
    pub tags: Vec<String>,
    /// Live cells of the initial pattern, row by row and left to right.
    pub cells: Vec<Cell>,
    /// Number of columns of the first grid row.
    pub width: usize,
    /// Number of grid rows.
    pub height: usize,
}

/// What a term holds, as plain mathematical values.
pub struct TermView {
    pub name: Seq<char>,
    pub description: Seq<char>,
    pub tags: Seq<Seq<char>>,
    pub cells: Seq<Cell>,
    pub width: nat,
    pub height: nat,
}

impl View for Term {
    type V = TermView;

    open spec fn view(&self) -> TermView {
        TermView {
            name: self.name@,
            description: self.description@,
            tags: strings_view(self.tags@),
            cells: self.cells@,
            width: self.width as nat,
            height: self.height as nat,
        }
    }
}

/// All the terms of a lexicon, in the order of the text.
#[derive(Clone, Debug, PartialEq, Eq)]
pub struct Lexicon {
    pub terms: Vec<Term>,
}

impl View for Lexicon {
    type V = Seq<TermView>;

    open spec fn view(&self) -> Seq<TermView> {
        self.terms@.map_values(|t: Term| t@)
    }
}

/// The position of the first term called `name`, if there is one.
pub open spec fn first_named(terms: Seq<TermView>, name: Seq<char>) -> Option<int>
    decreases terms.len(),
{
    if terms.len() == 0 {
        None
    } else if terms[0].name == name {
        Some(0)
    } else {
        match first_named(terms.drop_first(), name) {
            Some(i) => Some(i + 1),
            None => None,
        }
    }
}

/// `first_named` finds a position exactly when some term has the name, and
/// then it is the least such position.
pub proof fn lemma_first_named(terms: Seq<TermView>, name: Seq<char>)
    ensures
        match first_named(terms, name) {
            Some(i) => 0 <= i < terms.len() && terms[i].name == name && forall|j: int|
                0 <= j < i ==> terms[j].name != name,
            None => forall|j: int| 0 <= j < terms.len() ==> terms[j].name != name,
        },
    decreases terms.len(),
{
    if terms.len() > 0 && terms[0].name != name {
        let rest = terms.drop_first();
        lemma_first_named(rest, name);
        match first_named(rest, name) {
            Some(i) => {
                assert forall|j: int| 0 <= j < i + 1 implies terms[j].name != name by {
                    if j > 0 {
                        assert(terms[j] == rest[j - 1]);
                    }
                }
            },
            None => {
                assert forall|j: int| 0 <= j < terms.len() implies terms[j].name != name by {
                    if j > 0 {
                        assert(terms[j] == rest[j - 1]);
                    }
                }
            },
        }
    }
}

impl Lexicon {
    /// Looks a term up by its exact name: the first one that bears it, or
    /// `None` where no term does. The lexicon is left as it is.
    pub fn get_term(&self, name: String) -> (found: Option<&Term>)
        ensures
            match first_named(self@, name@) {
                Some(i) => found == Some(&self.terms[i]),
                None => found is None,
            },
    {
        let mut i: usize = 0;
        while i < self.terms.len()
            invariant
                i <= self.terms.len(),
                forall|j: int| 0 <= j < i ==> self@[j].name != name@,
            decreases self.terms.len() - i,
        {
            if self.terms[i].name == name {
                proof {
                    assert(self@[i as int].name == name@);
                    lemma_first_named(self@, name@);
                }
                return Some(&self.terms[i]);
            }
            i += 1;
        }
        proof {
            lemma_first_named(self@, name@);
        }
        None
    }
}

} // verus!
