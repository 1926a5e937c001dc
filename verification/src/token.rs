//! The tokens of a source text.

use vstd::prelude::*;

verus! {

/// The kind of a source token.
#[derive(Debug, PartialEq, Eq, Clone, Copy, Structural)]
pub enum TokenType {
    /// `>`
    RightAngle,
    /// `<`
    LeftAngle,
    /// `+`
    Plus,
    /// `-`
    Minus,
    /// `.`
    Dot,
    /// `,`
    Comma,
    /// `[`
    LeftBracket,
    /// `]`
    RightBracket,
}

/// A token together with the place in the source where it was found.
#[derive(Debug, PartialEq, Eq, Clone, Copy, Structural)]
pub struct Token {
    pub token_type: TokenType,
    /// Column in the source, counted from the start of the line.
    pub column: usize,
    /// Line in the source.
    pub line: usize,
}

impl Token {
    pub fn new(token_type: TokenType, column: usize, line: usize) -> (token: Self)
        ensures
            token.token_type == token_type,
            token.column == column,
            token.line == line,
    {
        Self { token_type, column, line }
    }

    pub fn token_type(&self) -> (kind: &TokenType)
        ensures
            *kind == self.token_type,
    {
        &self.token_type
    }
}

} // verus!
