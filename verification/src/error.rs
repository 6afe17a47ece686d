//! Typed parse errors.
//!
//! The first violation aborts parsing and is handed to the caller, carrying
//! the line it was found on whenever one is available. No partial tree is
//! ever returned.

use vstd::prelude::*;

use crate::lexer::{Lexeme, LexemeModel};
use crate::syntaxer::{Leaf, LeafModel};

verus! {

/// What the grammar would have accepted at the point where an unexpected
/// lexeme was found.
#[derive(Debug, Clone, Copy, PartialEq, Eq, Structural)]
pub enum ExpectedLexemes {
    BracketLeftOrIdentifier,
    IdentifierOrEndSlash,
    Identifier,
    Literal,
    BracketRight,
}

/// What the tree builder would have accepted at the point where an
/// out-of-place leaf was found: an element opening (at the root), or an
/// opening or a text run (among an element's children).
#[derive(Debug, Clone, Copy, PartialEq, Eq, Structural)]
pub enum ExpectedLeaves {
    Body,
    ContentOrBody,
}

/// A parse failure.
#[derive(Debug)]
pub enum ParseError {
    /// Internal scanner invariant violation: a structural lexeme was emitted
    /// while characters were still pending. The scanner is verified never to
    /// produce it; the variant exists so that the failure taxonomy is
    /// complete.
    UnflushedBuffer,
    /// A lexeme (or end of input, `found: None`) outside the tag grammar.
    /// The offending lexeme carries its own line.
    UnexpectedToken { found: Option<Lexeme>, expected: ExpectedLexemes },
    /// A leaf (or end of input, `found: None`) out of place in the tree.
    UnexpectedLeaf { found: Option<Leaf>, expected: ExpectedLeaves },
    /// A close tag whose name does not match the element being closed:
    /// the open tag's name and line, and the close tag's name and line.
    MismatchedEndTag {
        expected_name: String,
        expected_line: u64,
        found_name: String,
        found_line: u64,
    },
    /// Input ended while an open element still awaited its close tag.
    UnterminatedElement,
}

/// Mathematical mirror of [`ParseError`].
pub enum ErrorModel {
    UnflushedBuffer,
    UnexpectedToken { found: Option<LexemeModel>, expected: ExpectedLexemes },
    UnexpectedLeaf { found: Option<LeafModel>, expected: ExpectedLeaves },
    MismatchedEndTag {
        expected_name: Seq<char>,
        expected_line: int,
        found_name: Seq<char>,
        found_line: int,
    },
    UnterminatedElement,
}

impl View for ParseError {
    type V = ErrorModel;

    open spec fn view(&self) -> ErrorModel {
        match self {
            ParseError::UnflushedBuffer => ErrorModel::UnflushedBuffer,
            ParseError::UnexpectedToken { found, expected } => ErrorModel::UnexpectedToken {
                found: match found {
                    Some(l) => Some(l@),
                    None => None,
                },
                expected: *expected,
            },
            ParseError::UnexpectedLeaf { found, expected } => ErrorModel::UnexpectedLeaf {
                found: match found {
                    Some(l) => Some(l@),
                    None => None,
                },
                expected: *expected,
            },
            ParseError::MismatchedEndTag { expected_name, expected_line, found_name, found_line } =>
                ErrorModel::MismatchedEndTag {
                    expected_name: expected_name@,
                    expected_line: *expected_line as int,
                    found_name: found_name@,
                    found_line: *found_line as int,
                },
            ParseError::UnterminatedElement => ErrorModel::UnterminatedElement,
        }
    }
}

} // verus!
