//! From a source text to tokens.

use crate::token::{Token, TokenType};
use vstd::prelude::*;

verus! {

/// The kind of token that a character stands for; every other character is
/// passed over.
pub open spec fn kind_of(c: char) -> Option<TokenType> {
    if c == '>' {
        Some(TokenType::RightAngle)
    } else if c == '<' {
        Some(TokenType::LeftAngle)
    } else if c == '+' {
        Some(TokenType::Plus)
    } else if c == '-' {
        Some(TokenType::Minus)
    } else if c == '.' {
        Some(TokenType::Dot)
    } else if c == ',' {
        Some(TokenType::Comma)
    } else if c == '[' {
        Some(TokenType::LeftBracket)
    } else if c == ']' {
        Some(TokenType::RightBracket)
    } else {
        None
    }
}

/// The tokens of `source` from the character at `current` on, where `column`
/// characters of the line `line` have been read before it. A token has the
/// line it stands in, counted from zero, and its column in that line, counted
/// from one.
pub open spec fn tokens_from(source: Seq<char>, current: int, column: int, line: int) -> Seq<
    Token,
>
    decreases source.len() - current,
{
    if current < 0 || current >= source.len() {
        Seq::empty()
    } else if source[current] == '\n' {
        tokens_from(source, current + 1, 0, line + 1)
    } else {
        let rest = tokens_from(source, current + 1, column + 1, line);
        match kind_of(source[current]) {
            Some(token_type) => seq![
                Token { token_type, column: (column + 1) as usize, line: line as usize },
            ] + rest,
            None => rest,
        }
    }
}

/// The tokens of a source text.
pub open spec fn tokens_of(source: Seq<char>) -> Seq<Token> {
    tokens_from(source, 0, 0, 0)
}

/// Turns a source text into tokens.
#[derive(Debug, Clone, Default)]
pub struct Scanner {
    /// The source text.
    source: Vec<char>,
    /// The index of the next character.
    current: usize,
    /// How many characters of the current line have been read.
    column: usize,
    /// How many lines have been read to their end.
    line: usize,
}

impl Scanner {
    /// The source text.
    pub closed spec fn source(&self) -> Seq<char> {
        self.source@
    }

    /// The tokens that are still to be scanned.
    pub closed spec fn pending(&self) -> Seq<Token> {
        tokens_from(self.source@, self.current as int, self.column as int, self.line as int)
    }

    /// Line and column do not run ahead of the characters read. Every scanner
    /// that [`Scanner::new`] made has this, and every method keeps it.
    pub closed spec fn wf(&self) -> bool {
        &&& self.current <= self.source@.len()
        &&& self.column <= self.current
        &&& self.line <= self.current
    }

    pub fn new(source: Vec<char>) -> (scanner: Self)
        ensures
            scanner.wf(),
            scanner.source() == source@,
            scanner.pending() == tokens_of(source@),
    {
        Self { source, current: 0, column: 0, line: 0 }
    }

    /// Scans every token that is left.
    pub fn scan_tokens(&mut self) -> (tokens: Vec<Token>)
        requires
            old(self).wf(),
        ensures
            final(self).wf(),
            final(self).source() == old(self).source(),
            final(self).pending() == Seq::<Token>::empty(),
            tokens@ == old(self).pending(),
    {
        let mut result: Vec<Token> = Vec::new();
        while !self.is_at_end()
            invariant
                self.wf(),
                self.source() == old(self).source(),
                result@ + self.pending() == old(self).pending(),
            decreases self.source@.len() - self.current,
        {
            match self.scan_token() {
                Some(token) => {
                    result.push(token);
                },
                None => {},
            }
        }
        result
    }

    /// Scans the next character: a token, or nothing where the character
    /// stands for none.
    fn scan_token(&mut self) -> (token: Option<Token>)
        requires
            old(self).wf(),
            old(self).current < old(self).source@.len(),
        ensures
            final(self).wf(),
            final(self).source@ == old(self).source@,
            final(self).current == old(self).current + 1,
            old(self).pending() == match token {
                Some(t) => seq![t] + final(self).pending(),
                None => final(self).pending(),
            },
    {
        let c = self.advance();
        let token_type = if c == '>' {
            TokenType::RightAngle
        } else if c == '<' {
            TokenType::LeftAngle
        } else if c == '+' {
            TokenType::Plus
        } else if c == '-' {
            TokenType::Minus
        } else if c == '.' {
            TokenType::Dot
        } else if c == ',' {
            TokenType::Comma
        } else if c == '[' {
            TokenType::LeftBracket
        } else if c == ']' {
            TokenType::RightBracket
        } else if c == '\n' {
            self.line += 1;
            self.column = 0;
            return None;
        } else {
            return None;
        };
        Some(Token::new(token_type, self.column, self.line))
    }

    /// Reads the next character.
    fn advance(&mut self) -> (c: char)
        requires
            old(self).wf(),
            old(self).current < old(self).source@.len(),
        ensures
            final(self).wf(),
            final(self).source@ == old(self).source@,
            final(self).current == old(self).current + 1,
            final(self).column == old(self).column + 1,
            final(self).line == old(self).line,
            final(self).line < final(self).current,
            c == old(self).source@[old(self).current as int],
    {
        assert(self.current < self.source.len());
        let result = self.source[self.current];
        self.current += 1;
        self.column += 1;
        result
    }

    fn is_at_end(&self) -> (at_end: bool)
        ensures
            at_end == (self.current >= self.source@.len()),
    {
        self.current >= self.source.len()
    }
}

} // verus!
