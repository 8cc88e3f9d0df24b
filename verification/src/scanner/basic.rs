//! The classes of characters of the lexical structure of Haskell.

use vstd::prelude::*;
use crate::char::{Ascii, CharPredicate, Unicode};

verus! {

/// `small`: a lowercase letter, or `_`.
pub struct Small;

impl CharPredicate for Small {
    open spec fn holds(&self, x: char) -> bool {
        Ascii::Lower.holds(x) || Unicode::Lower.holds(x) || x == '_'
    }

    fn check(&self, x: char) -> (r: bool) {
        Ascii::Lower.check(x) || Unicode::Lower.check(x) || x == '_'
    }
}

/// `large`: an uppercase or titlecase letter.
pub struct Large;

impl CharPredicate for Large {
    open spec fn holds(&self, x: char) -> bool {
        Ascii::Upper.holds(x) || Unicode::Upper.holds(x)
    }

    fn check(&self, x: char) -> (r: bool) {
        Ascii::Upper.check(x) || Unicode::Upper.check(x)
    }
}

/// `special`: one of `(),;[]` `` ` `` `{}`.
pub struct Special;

impl CharPredicate for Special {
    open spec fn holds(&self, x: char) -> bool {
        x == '(' || x == ')' || x == ',' || x == ';' || x == '[' || x == ']' || x == '`' || x == '{' || x == '}'
    }

    fn check(&self, x: char) -> (r: bool) {
        x == '(' || x == ')' || x == ',' || x == ';' || x == '[' || x == ']' || x == '`' || x == '{' || x == '}'
    }
}

/// `ascSymbol`: one of ``!#$%&*+./<=>?@\^|-~:``.
pub open spec fn ascii_symbol(x: char) -> bool {
    x == '!' || x == '#' || x == '$' || x == '%' || x == '&' || x == '*' || x == '+' || x == '.' || x == '/' || x
        == '<' || x == '=' || x == '>' || x == '?' || x == '@' || x == '\\' || x == '^' || x == '|' || x == '-' || x
        == '~' || x == ':'
}

/// Decides [`ascii_symbol`].
pub fn is_ascii_symbol(x: char) -> (r: bool)
    ensures
        r == ascii_symbol(x),
{
    x == '!' || x == '#' || x == '$' || x == '%' || x == '&' || x == '*' || x == '+' || x == '.' || x == '/' || x
        == '<' || x == '=' || x == '>' || x == '?' || x == '@' || x == '\\' || x == '^' || x == '|' || x == '-' || x
        == '~' || x == ':'
}

/// `symbol`: an ASCII symbol, or a Unicode symbol or punctuation that is
/// neither special nor one of `_`, `"`, `'`.
pub struct Symbol;

impl CharPredicate for Symbol {
    open spec fn holds(&self, x: char) -> bool {
        ascii_symbol(x) || ((Unicode::Symbol.holds(x) || Unicode::Punct.holds(x)) && !(x == '_' || x == '"' || x
            == '\'') && !Special.holds(x))
    }

    fn check(&self, x: char) -> (r: bool) {
        is_ascii_symbol(x) || ((Unicode::Symbol.check(x) || Unicode::Punct.check(x)) && !(x == '_' || x == '"' || x
            == '\'') && !Special.check(x))
    }
}

/// `digit`: a decimal digit.
pub struct Digit;

impl CharPredicate for Digit {
    open spec fn holds(&self, x: char) -> bool {
        Ascii::Digit.holds(x) || Unicode::Digit.holds(x)
    }

    fn check(&self, x: char) -> (r: bool) {
        Ascii::Digit.check(x) || Unicode::Digit.check(x)
    }
}

/// `octit`: one of `0` to `7`.
pub struct Octit;

impl CharPredicate for Octit {
    open spec fn holds(&self, x: char) -> bool {
        Ascii::Oct.holds(x)
    }

    fn check(&self, x: char) -> (r: bool) {
        Ascii::Oct.check(x)
    }
}

/// `hexit`: a digit, or one of `A` to `F`, `a` to `f`.
pub struct Hexit;

impl CharPredicate for Hexit {
    open spec fn holds(&self, x: char) -> bool {
        Digit.holds(x) || Ascii::Hex.holds(x)
    }

    fn check(&self, x: char) -> (r: bool) {
        Digit.check(x) || Ascii::Hex.check(x)
    }
}

/// `graphic`: a letter, a symbol, a digit, a special character, `"` or `'`.
pub struct Graphic;

impl CharPredicate for Graphic {
    open spec fn holds(&self, x: char) -> bool {
        Small.holds(x) || Large.holds(x) || Symbol.holds(x) || Digit.holds(x) || Special.holds(x) || x == '"' || x
            == '\''
    }

    fn check(&self, x: char) -> (r: bool) {
        Small.check(x) || Large.check(x) || Symbol.check(x) || Digit.check(x) || Special.check(x) || x == '"' || x
            == '\''
    }
}

/// `whitechar`: a line break, a vertical tab, a space, a tab, or Unicode
/// white space.
pub struct WhiteChar;

impl CharPredicate for WhiteChar {
    open spec fn holds(&self, x: char) -> bool {
        x == '\r' || x == '\n' || x == '\x0C' || x == '\x0B' || x == ' ' || x == '\t' || Unicode::White.holds(x)
    }

    fn check(&self, x: char) -> (r: bool) {
        x == '\r' || x == '\n' || x == '\x0C' || x == '\x0B' || x == ' ' || x == '\t' || Unicode::White.check(x)
    }
}

/// `ANY`: a graphic character or white space; every other character is
/// reported.
pub struct Any;

impl CharPredicate for Any {
    open spec fn holds(&self, x: char) -> bool {
        Graphic.holds(x) || WhiteChar.holds(x)
    }

    fn check(&self, x: char) -> (r: bool) {
        Graphic.check(x) || WhiteChar.check(x)
    }
}

/// A character of a name after the first: a letter, a digit or `'`.
pub struct NameChar;

impl CharPredicate for NameChar {
    open spec fn holds(&self, x: char) -> bool {
        Small.holds(x) || Large.holds(x) || Digit.holds(x) || x == '\''
    }

    fn check(&self, x: char) -> (r: bool) {
        Small.check(x) || Large.check(x) || Digit.check(x) || x == '\''
    }
}

} // verus!
