//! A lexicon of named Life patterns, read from its line-oriented text form.
//!
//! The text is a sequence of lines. A line of dashes opens the catalog and
//! another closes it. Between them every line that begins with a colon
//! opens an entry: `:name: (tag, tag) description`. Lines that begin with
//! three spaces continue the description, lines that begin with a tab draw
//! the pattern, one character for each cell, and the next empty line closes
//! the entry. [`parse_lexicon`] reads such a text into a [`Lexicon`], or
//! says why the text is none.
//!
//! Every function states what it computes over `Seq<char>` and is proved
//! against that statement:
//!
//! - [`text`]: characters, white space, trimming, and the lines of a text;
//! - [`line`]: the role of a line;
//! - [`header`]: the grammar of a header line;
//! - [`grid`]: the cells of a grid row;
//! - [`machine`]: what parsing means, one line at a time;
//! - [`entry`], [`verdict`]: what follows for whole entries and whole texts;
//! - [`parser`]: the parser itself;
//! - [`lex`], [`error`]: what it gives.

pub mod entry;
pub mod error;
pub mod grid;
pub mod header;
pub mod lex;
pub mod line;
pub mod machine;
pub mod parser;
pub mod text;
pub mod verdict;

pub use error::{ParseError, ParseErrorKind};
pub use lex::{Cell, Lexicon, Term};
pub use parser::parse_lexicon;
