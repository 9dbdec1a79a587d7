//! The error taxonomy shared by the tokenizer, the parser and the projection
//! layer. Every failure is terminal for the call that produced it: a caller
//! receives either a complete result or a single descriptive error.

use vstd::prelude::*;

verus! {

/// An error raised while tokenizing, parsing or projecting a document.
#[derive(Debug, Clone, PartialEq)]
pub enum YamlError {
    /// A structural syntax violation: missing colon, unexpected token,
    /// trailing content after a complete document.
    ParseError(String),
    /// An indentation width that does not resolve to any enclosing level.
    IndentationError(String),
    /// A type mismatch or a missing required field during projection.
    InvalidValue(String),
    /// Reserved for lexical failures at a known position.
    UnexpectedChar { char: char, line: usize, column: usize },
    /// The input ended while a construct was still open.
    UnexpectedEof,
}

/// The mathematical shadow of [`YamlError`]: the same variants over `Seq<char>`,
/// so that contracts can pin error messages down exactly.
pub enum ErrView {
    Parse(Seq<char>),
    Indent(Seq<char>),
    Invalid(Seq<char>),
    Char(char, int, int),
    Eof,
}

impl YamlError {
    /// What this error is, stated over sequences of characters.
    pub open spec fn view(self) -> ErrView {
        match self {
            YamlError::ParseError(m) => ErrView::Parse(m@),
            YamlError::IndentationError(m) => ErrView::Indent(m@),
            YamlError::InvalidValue(m) => ErrView::Invalid(m@),
            YamlError::UnexpectedChar { char: c, line, column } => ErrView::Char(
                c,
                line as int,
                column as int,
            ),
            YamlError::UnexpectedEof => ErrView::Eof,
        }
    }
}

/// The result of any call into the library.
pub type YamlResult<T> = Result<T, YamlError>;

} // verus!
