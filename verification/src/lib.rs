//! Front matter extraction.
//!
//! A document may open with a block of metadata, its front matter, fenced
//! by two marker lines. Three conventions are known, each with a marker of
//! its own: `---`, `...` and `+++`. This library finds the block and hands
//! back the text between the two marker lines and the text behind them,
//! both trimmed. What the front matter says is not looked into.
//!
//! # The shape of a document
//!
//! - Blank characters (space, tab, line feed, vertical tab, form feed,
//!   carriage return) may stand before the opening marker, and nothing
//!   else.
//! - A line break, `\n` or `\r\n`, stands right behind the opening marker.
//! - The closing marker is the first marker of the same convention that
//!   stands alone on a line of its own: behind blank characters only, and
//!   with the end of its line right behind it. A marker amid other text
//!   closes nothing.
//! - A closing line ends in a line break. Where the configuration says so,
//!   it may end the text instead.
//! - Trimming takes away the characters with the Unicode property
//!   `White_Space` at the two ends of a part.
//!
//! A text of any other shape has no front matter, which is no error. Only
//! the empty text is refused, by [`Extractor::extract`]; [`matter`] and
//! [`extract`] have no error to give and find no front matter in it.
//!
//! Nothing is copied while a text is searched: the parts that [`matter`]
//! and [`Extractor::extract`] give are borrowed from the input, and
//! [`extract`] copies them once they are found.
//!
//! # The modules
//!
//! - [`classes`]: blank characters and whitespace.
//! - [`trim`]: a text without the whitespace at its two ends.
//! - [`grammar`]: what a document with front matter is, and what its parts
//!   are.
//! - [`bytes`]: where the characters of a text stand among its bytes.
//! - [`scan`]: finding the two marker lines.
//! - [`extractor`]: the configuration, the extractor, [`matter`] and
//!   [`extract`].
//! - [`laws`]: what holds of extraction on every text.

pub mod bytes;
pub mod classes;
pub mod extractor;
pub mod grammar;
pub mod laws;
pub mod scan;
pub mod trim;

pub use crate::extractor::{extract, matter, Config, ExtractionError, Extractor};
pub use crate::grammar::Convention;
