//! Typst to the PDF a LibrePaper document is stored as, with the page
//! template, the diagnostics and the word diff the editor shares with it.
//!
//! - `page`: the standalone HTML page around a document, and its first
//!   heading as a title.
//! - `diagnostic`: what a compile says, as a line, as JSON, and as the page
//!   that stands in for a document that did not compile.
//! - `text`: the word tokens of a text and the diff between two texts, as
//!   replacements in UTF-16 units; `myers` finds the matching it rests on.
//! - `merge`: the three-way merge of a file and a session over a base, and
//!   the conflicts where both moved the same words; `order` is the stable
//!   sort it visits its regions in.
//! - `typst`: what is decided around a compile -- which files are typst, the
//!   title, today's date, where a diagnostic points, and the order of what
//!   the compiler said.
//! - `chars` and `strings`: characters, UTF-8 and UTF-16 lengths, and string
//!   building, shared by the rest.

pub mod chars;
pub mod strings;
pub mod page;
pub mod diagnostic;
pub mod myers;
pub mod text;
pub mod order;
pub mod merge;
pub mod typst;

