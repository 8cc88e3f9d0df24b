//! The special characters: brackets and separators.

use vstd::prelude::*;
use crate::lexeme::{Lexeme, Token};
use crate::scanner::whitespace::read;
use crate::scanner::{ScanResult, Scanner};
use crate::utils::Result3;

verus! {

/// The lexeme that the special character `c` is.
pub open spec fn special_of(c: char) -> Option<Token> {
    if c == ',' {
        Some(Token::Comma)
    } else if c == ';' {
        Some(Token::Semicolon)
    } else if c == '`' {
        Some(Token::Backtick)
    } else if c == '{' {
        Some(Token::OpenCurlyBracket)
    } else if c == '}' {
        Some(Token::CloseCurlyBracket)
    } else if c == '(' {
        Some(Token::OpenParenthesis)
    } else if c == ')' {
        Some(Token::CloseParenthesis)
    } else if c == '[' {
        Some(Token::OpenSquareBracket)
    } else if c == ']' {
        Some(Token::CloseSquareBracket)
    } else {
        None
    }
}

/// The special character that `s` begins with.
pub open spec fn special(s: Seq<char>) -> Option<(Token, nat)> {
    if s.len() > 0 && special_of(s[0]) is Some {
        Some((special_of(s[0])->Some_0, 1))
    } else {
        None
    }
}

/// Decides [`special_of`].
pub fn find_special(c: char) -> (r: Option<Lexeme>)
    ensures
        match special_of(c) {
            Some(t) => r matches Some(l) && l@ == t,
            None => r is None,
        },
{
    if c == ',' {
        Some(Lexeme::Comma)
    } else if c == ';' {
        Some(Lexeme::Semicolon)
    } else if c == '`' {
        Some(Lexeme::Backtick)
    } else if c == '{' {
        Some(Lexeme::OpenCurlyBracket)
    } else if c == '}' {
        Some(Lexeme::CloseCurlyBracket)
    } else if c == '(' {
        Some(Lexeme::OpenParenthesis)
    } else if c == ')' {
        Some(Lexeme::CloseParenthesis)
    } else if c == '[' {
        Some(Lexeme::OpenSquareBracket)
    } else if c == ']' {
        Some(Lexeme::CloseSquareBracket)
    } else {
        None
    }
}

impl Scanner {
    /// Reads a special character; fails, for another rule to be tried, if
    /// none is next.
    pub fn special(&mut self) -> (r: ScanResult<Lexeme>)
        requires
            old(self).wf(),
        ensures
            match special(old(self).rest()) {
                Some((t, n)) => r matches Result3::Success(l) && l@ == t && old(self).went(
                    final(self),
                    read(old(self).rest(), old(self).place(), n),
                ),
                None => r is RetryLater && old(self).same(final(self)),
            },
    {
        match self.peek() {
            Some(c) => match find_special(c) {
                Some(l) => {
                    self.advance(1);
                    Result3::Success(l)
                },
                None => Scanner::keep_trying(),
            },
            None => Scanner::keep_trying(),
        }
    }
}

} // verus!
