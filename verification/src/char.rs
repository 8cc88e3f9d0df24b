//! Classes of characters, and the stream of characters that the scanner
//! reads from.

use vstd::prelude::*;
use vstd::string::StrSliceExecFns;

verus! {

/// Classes of ASCII characters.
pub enum Ascii {
    /// Any ASCII character.
    Any,
    /// Letters: `[A-Za-z]`.
    Alpha,
    /// Letters and digits: `[A-Za-z0-9]`.
    AlphaNum,
    /// Digits: `[0-9]`.
    Digit,
    /// Octal digits: `[0-7]`.
    Oct,
    /// Hexadecimal digits: `[0-9a-fA-F]`.
    Hex,
    /// Lowercase letters: `[a-z]`.
    Lower,
    /// Uppercase letters: `[A-Z]`.
    Upper,
    /// White space: space, tab, line feed, form feed, carriage return.
    White,
}

/// Classes of Unicode characters.
pub enum Unicode {
    /// Letters: the property `Alphabetic`.
    Alpha,
    /// Letters and numbers.
    AlphaNum,
    /// Numbers: the categories `Nd`, `Nl`, `No`.
    Numeric,
    /// Decimal digits: the category `Nd`.
    Digit,
    /// Lowercase letters: the property `Lowercase`.
    Lower,
    /// Uppercase letters: the property `Uppercase`.
    Upper,
    /// White space: the property `White_Space`.
    White,
    /// Symbols: the categories `Sm`, `Sc`, `Sk`, `So`.
    Symbol,
    /// Punctuation: the categories `Pc`, `Pd`, `Ps`, `Pe`, `Pi`, `Pf`, `Po`.
    Punct,
}

/// Anything that says of a character whether it belongs.
pub trait CharPredicate {
    /// Whether `x` belongs.
    spec fn holds(&self, x: char) -> bool;

    /// Decides whether `x` belongs.
    fn check(&self, x: char) -> (r: bool)
        ensures
            r == self.holds(x),
    ;
}

/// Whether the code of `x` lies between the codes of `lo` and `hi`, both
/// included.
pub open spec fn between(x: char, lo: char, hi: char) -> bool {
    lo as u32 <= x as u32 && x as u32 <= hi as u32
}

/// Decides [`between`].
pub fn is_between(x: char, lo: char, hi: char) -> (r: bool)
    ensures
        r == between(x, lo, hi),
{
    lo as u32 <= x as u32 && x as u32 <= hi as u32
}

impl CharPredicate for Ascii {
    open spec fn holds(&self, x: char) -> bool {
        match self {
            Ascii::Any => (x as u32) < 128,
            Ascii::Alpha => between(x, 'A', 'Z') || between(x, 'a', 'z'),
            Ascii::AlphaNum => between(x, 'A', 'Z') || between(x, 'a', 'z') || between(x, '0', '9'),
            Ascii::Digit => between(x, '0', '9'),
            Ascii::Oct => between(x, '0', '7'),
            Ascii::Hex => between(x, '0', '9') || between(x, 'A', 'F') || between(x, 'a', 'f'),
            Ascii::Lower => between(x, 'a', 'z'),
            Ascii::Upper => between(x, 'A', 'Z'),
            Ascii::White => x == ' ' || x == '\t' || x == '\n' || x == '\x0C' || x == '\r',
        }
    }

    fn check(&self, x: char) -> (r: bool) {
        match self {
            Ascii::Any => (x as u32) < 128,
            Ascii::Alpha => is_between(x, 'A', 'Z') || is_between(x, 'a', 'z'),
            Ascii::AlphaNum => is_between(x, 'A', 'Z') || is_between(x, 'a', 'z') || is_between(x, '0', '9'),
            Ascii::Digit => is_between(x, '0', '9'),
            Ascii::Oct => is_between(x, '0', '7'),
            Ascii::Hex => is_between(x, '0', '9') || is_between(x, 'A', 'F') || is_between(x, 'a', 'f'),
            Ascii::Lower => is_between(x, 'a', 'z'),
            Ascii::Upper => is_between(x, 'A', 'Z'),
            Ascii::White => x == ' ' || x == '\t' || x == '\n' || x == '\x0C' || x == '\r',
        }
    }
}

/// Whether `c` has the property `Alphabetic`, as `char::is_alphabetic` says.
pub uninterp spec fn unicode_alphabetic(c: char) -> bool;

/// Whether `c` is a letter or a number, as `char::is_alphanumeric` says.
pub uninterp spec fn unicode_alphanumeric(c: char) -> bool;

/// Whether `c` is a number, as `char::is_numeric` says.
pub uninterp spec fn unicode_numeric(c: char) -> bool;

/// Whether `c` has the property `Lowercase`, as `char::is_lowercase` says.
pub uninterp spec fn unicode_lowercase(c: char) -> bool;

/// Whether `c` has the property `Uppercase`, as `char::is_uppercase` says.
pub uninterp spec fn unicode_uppercase(c: char) -> bool;

/// Whether `c` has the property `White_Space`, as `char::is_whitespace`
/// says.
pub uninterp spec fn unicode_whitespace(c: char) -> bool;

/// Whether the general category of `c` is `Nd`, by the tables of
/// `unic_ucd_category`.
pub uninterp spec fn unicode_decimal(c: char) -> bool;

/// Whether the general category of `c` is a symbol, by the tables of
/// `unic_ucd_category`.
pub uninterp spec fn unicode_symbol(c: char) -> bool;

/// Whether the general category of `c` is punctuation, by the tables of
/// `unic_ucd_category`.
pub uninterp spec fn unicode_punctuation(c: char) -> bool;

/// `char::is_alphabetic` of std: the answer depends on the character alone.
#[verifier::external_body]
fn is_alphabetic(c: char) -> (r: bool)
    ensures
        r == unicode_alphabetic(c),
{
    c.is_alphabetic()
}

/// `char::is_alphanumeric` of std: the answer depends on the character
/// alone.
#[verifier::external_body]
fn is_alphanumeric(c: char) -> (r: bool)
    ensures
        r == unicode_alphanumeric(c),
{
    c.is_alphanumeric()
}

/// `char::is_numeric` of std: the answer depends on the character alone.
#[verifier::external_body]
fn is_numeric(c: char) -> (r: bool)
    ensures
        r == unicode_numeric(c),
{
    c.is_numeric()
}

/// `char::is_lowercase` of std: the answer depends on the character alone.
#[verifier::external_body]
fn is_lowercase(c: char) -> (r: bool)
    ensures
        r == unicode_lowercase(c),
{
    c.is_lowercase()
}

/// `char::is_uppercase` of std: the answer depends on the character alone.
#[verifier::external_body]
fn is_uppercase(c: char) -> (r: bool)
    ensures
        r == unicode_uppercase(c),
{
    c.is_uppercase()
}

/// `char::is_whitespace` of std: the answer depends on the character alone.
#[verifier::external_body]
fn is_whitespace(c: char) -> (r: bool)
    ensures
        r == unicode_whitespace(c),
{
    c.is_whitespace()
}

/// Whether `GeneralCategory::of` of `unic_ucd_category` gives the category
/// of decimal numbers for `c`; the category depends on the character alone.
#[verifier::external_body]
fn is_decimal(c: char) -> (r: bool)
    ensures
        r == unicode_decimal(c),
{
    unic_ucd_category::GeneralCategory::of(c) == unic_ucd_category::GeneralCategory::DecimalNumber
}

/// Whether `GeneralCategory::is_symbol` of `unic_ucd_category` holds of the
/// category that `GeneralCategory::of` gives for `c`.
#[verifier::external_body]
fn is_symbol(c: char) -> (r: bool)
    ensures
        r == unicode_symbol(c),
{
    unic_ucd_category::GeneralCategory::of(c).is_symbol()
}

/// Whether `GeneralCategory::is_punctuation` of `unic_ucd_category` holds of
/// the category that `GeneralCategory::of` gives for `c`.
#[verifier::external_body]
fn is_punctuation(c: char) -> (r: bool)
    ensures
        r == unicode_punctuation(c),
{
    unic_ucd_category::GeneralCategory::of(c).is_punctuation()
}

impl CharPredicate for Unicode {
    open spec fn holds(&self, x: char) -> bool {
        match self {
            Unicode::Alpha => unicode_alphabetic(x),
            Unicode::AlphaNum => unicode_alphanumeric(x),
            Unicode::Numeric => unicode_numeric(x),
            Unicode::Digit => unicode_decimal(x),
            Unicode::Lower => unicode_lowercase(x),
            Unicode::Upper => unicode_uppercase(x),
            Unicode::White => unicode_whitespace(x),
            Unicode::Symbol => unicode_symbol(x),
            Unicode::Punct => unicode_punctuation(x),
        }
    }

    fn check(&self, x: char) -> (r: bool) {
        match self {
            Unicode::Alpha => is_alphabetic(x),
            Unicode::AlphaNum => is_alphanumeric(x),
            Unicode::Numeric => is_numeric(x),
            Unicode::Digit => is_decimal(x),
            Unicode::Lower => is_lowercase(x),
            Unicode::Upper => is_uppercase(x),
            Unicode::White => is_whitespace(x),
            Unicode::Symbol => is_symbol(x),
            Unicode::Punct => is_punctuation(x),
        }
    }
}

impl CharPredicate for char {
    /// A character is the class of itself.
    open spec fn holds(&self, x: char) -> bool {
        *self == x
    }

    fn check(&self, x: char) -> (r: bool) {
        *self == x
    }
}

impl CharPredicate for String {
    /// A string is the class of its characters.
    open spec fn holds(&self, x: char) -> bool {
        self@.contains(x)
    }

    fn check(&self, x: char) -> (r: bool) {
        let s = self.as_str();
        let n = s.unicode_len();
        let mut i: usize = 0;
        while i < n
            invariant
                i <= n,
                n == s@.len(),
                s@ == self@,
                forall|k: int| 0 <= k < i ==> s@[k] != x,
            decreases n - i,
        {
            if s.get_char(i) == x {
                return true;
            }
            i += 1;
        }
        false
    }
}

/// The characters that do not belong to a class.
pub struct NotPred<P: CharPredicate>(pub P);

impl<P: CharPredicate> CharPredicate for NotPred<P> {
    open spec fn holds(&self, x: char) -> bool {
        !self.0.holds(x)
    }

    fn check(&self, x: char) -> (r: bool) {
        !self.0.check(x)
    }
}

/// The characters that belong to one of two classes.
pub struct OrPred<P: CharPredicate, Q: CharPredicate>(pub P, pub Q);

impl<P: CharPredicate, Q: CharPredicate> CharPredicate for OrPred<P, Q> {
    open spec fn holds(&self, x: char) -> bool {
        self.0.holds(x) || self.1.holds(x)
    }

    fn check(&self, x: char) -> (r: bool) {
        self.0.check(x) || self.1.check(x)
    }
}

/// The characters that belong to both of two classes.
pub struct AndPred<P: CharPredicate, Q: CharPredicate>(pub P, pub Q);

impl<P: CharPredicate, Q: CharPredicate> CharPredicate for AndPred<P, Q> {
    open spec fn holds(&self, x: char) -> bool {
        self.0.holds(x) && self.1.holds(x)
    }

    fn check(&self, x: char) -> (r: bool) {
        self.0.check(x) && self.1.check(x)
    }
}

/// A stream of characters.
pub trait Stream {
    /// The characters that are still to come.
    spec fn remaining(&self) -> Seq<char>;

    /// Whether the stream can be read from.
    spec fn ready(&self) -> bool;

    /// The next character, which stays in the stream.
    fn peek(&mut self) -> (r: Option<char>)
        requires
            old(self).ready(),
        ensures
            final(self).ready(),
            final(self).remaining() == old(self).remaining(),
            r == if old(self).remaining().len() > 0 {
                Some(old(self).remaining()[0])
            } else {
                None
            },
    ;

    /// Takes the next character out of the stream.
    fn next(&mut self) -> (r: Option<char>)
        requires
            old(self).ready(),
        ensures
            final(self).ready(),
            r == if old(self).remaining().len() > 0 {
                Some(old(self).remaining()[0])
            } else {
                None
            },
            final(self).remaining() == if old(self).remaining().len() > 0 {
                old(self).remaining().drop_first()
            } else {
                old(self).remaining()
            },
    ;
}

} // verus!
