//! Parser for a simplified HTML-like markup language.
//!
//! Raw characters are scanned into lexemes (mod lexer), lexemes are grouped
//! into structural leaves (mod syntaxer), and leaves are assembled into a
//! tree of elements (mod parser). Malformed input is reported through the
//! typed errors in mod error, each carrying the line it was found on
//! whenever one is available. mod writer renders a parsed tree back into
//! markup text.

pub mod error;
pub mod lexer;
pub mod parser;
pub mod syntaxer;
pub mod writer;
