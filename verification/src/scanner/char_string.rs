//! Character and string literals.

use vstd::prelude::*;
use vstd::string::StrSliceExecFns;
use crate::buffer::run_length;
use crate::char::{Ascii, CharPredicate};
use crate::error::{Diagnostic, DiagnosticMessage, Error};
use crate::lexeme::{Lexeme, Token};
use crate::number::radix_value;
use crate::scanner::numeric::DigitIn;
use crate::scanner::whitespace::{read, stayed, then, whitechar, Scanned};
use crate::scanner::{Location, Range, ScanResult, Scanner};
use crate::text::{display_char, is_scalar, push_char, REPLACEMENT};
use crate::utils::Result3;

verus! {

/// The size at which the number of a numeric escape is cut off.
pub const ESCAPE_CAP: u64 = 0x1_0000_0000;

/// The character that the letter `c` stands for after a backslash.
pub open spec fn char_esc(c: char) -> Option<char> {
    if c == 'a' {
        Some('\x07')
    } else if c == 'b' {
        Some('\x08')
    } else if c == 'f' {
        Some('\x0C')
    } else if c == 'n' {
        Some('\n')
    } else if c == 'r' {
        Some('\r')
    } else if c == 't' {
        Some('\t')
    } else if c == 'v' {
        Some('\x0B')
    } else if c == '\\' {
        Some('\\')
    } else if c == '"' {
        Some('"')
    } else if c == '\'' {
        Some('\'')
    } else {
        None
    }
}

/// Decides [`char_esc`].
pub fn find_char_esc(c: char) -> (r: Option<char>)
    ensures
        r == char_esc(c),
{
    if c == 'a' {
        Some('\x07')
    } else if c == 'b' {
        Some('\x08')
    } else if c == 'f' {
        Some('\x0C')
    } else if c == 'n' {
        Some('\n')
    } else if c == 'r' {
        Some('\r')
    } else if c == 't' {
        Some('\t')
    } else if c == 'v' {
        Some('\x0B')
    } else if c == '\\' {
        Some('\\')
    } else if c == '"' {
        Some('"')
    } else if c == '\'' {
        Some('\'')
    } else {
        None
    }
}

/// The control character that `c` stands for after `\^`: the first to the
/// twenty-sixth for the letters `A` to `Z`, and those around them for `@`,
/// `[`, `\`, `]`, `^` and `_`.
pub open spec fn control(c: char) -> Option<char> {
    if Ascii::Upper.holds(c) {
        Some(((c as u32 - 'A' as u32 + 1) as u8) as char)
    } else if c == '@' {
        Some('\0')
    } else if c == '[' {
        Some('\x1B')
    } else if c == '\\' {
        Some('\x1C')
    } else if c == ']' {
        Some('\x1D')
    } else if c == '^' {
        Some('\x1E')
    } else if c == '_' {
        Some('\x1F')
    } else {
        None
    }
}

/// Decides [`control`].
pub fn find_control(c: char) -> (r: Option<char>)
    ensures
        r == control(c),
{
    if Ascii::Upper.check(c) {
        let code: u8 = (c as u32 - 'A' as u32 + 1) as u8;
        Some(code as char)
    } else if c == '@' {
        Some('\0')
    } else if c == '[' {
        Some('\x1B')
    } else if c == '\\' {
        Some('\x1C')
    } else if c == ']' {
        Some('\x1D')
    } else if c == '^' {
        Some('\x1E')
    } else if c == '_' {
        Some('\x1F')
    } else {
        None
    }
}

/// The number of names of ASCII characters.
pub const ASCII_NAMES: usize = 34;

/// The names of ASCII characters, in the order in which they are tried.
pub open spec fn ascii_name(k: nat) -> Seq<char> {
    if k == 0 {
        "NUL"@
    } else if k == 1 {
        "SOH"@
    } else if k == 2 {
        "STX"@
    } else if k == 3 {
        "ETX"@
    } else if k == 4 {
        "EOT"@
    } else if k == 5 {
        "ENQ"@
    } else if k == 6 {
        "ACK"@
    } else if k == 7 {
        "BEL"@
    } else if k == 8 {
        "BS"@
    } else if k == 9 {
        "HT"@
    } else if k == 10 {
        "LF"@
    } else if k == 11 {
        "VT"@
    } else if k == 12 {
        "FF"@
    } else if k == 13 {
        "CR"@
    } else if k == 14 {
        "SO"@
    } else if k == 15 {
        "SI"@
    } else if k == 16 {
        "DLE"@
    } else if k == 17 {
        "DC1"@
    } else if k == 18 {
        "DC2"@
    } else if k == 19 {
        "DC3"@
    } else if k == 20 {
        "DC4"@
    } else if k == 21 {
        "NAK"@
    } else if k == 22 {
        "SYN"@
    } else if k == 23 {
        "ETB"@
    } else if k == 24 {
        "CAN"@
    } else if k == 25 {
        "EM"@
    } else if k == 26 {
        "SUB"@
    } else if k == 27 {
        "ESC"@
    } else if k == 28 {
        "FS"@
    } else if k == 29 {
        "GS"@
    } else if k == 30 {
        "RS"@
    } else if k == 31 {
        "US"@
    } else if k == 32 {
        "SP"@
    } else {
        "DEL"@
    }
}

/// The name of place `k` among the names of ASCII characters.
pub fn name_of(k: usize) -> (r: &'static str)
    requires
        k < ASCII_NAMES,
    ensures
        r@ == ascii_name(k as nat),
{
    if k == 0 {
        "NUL"
    } else if k == 1 {
        "SOH"
    } else if k == 2 {
        "STX"
    } else if k == 3 {
        "ETX"
    } else if k == 4 {
        "EOT"
    } else if k == 5 {
        "ENQ"
    } else if k == 6 {
        "ACK"
    } else if k == 7 {
        "BEL"
    } else if k == 8 {
        "BS"
    } else if k == 9 {
        "HT"
    } else if k == 10 {
        "LF"
    } else if k == 11 {
        "VT"
    } else if k == 12 {
        "FF"
    } else if k == 13 {
        "CR"
    } else if k == 14 {
        "SO"
    } else if k == 15 {
        "SI"
    } else if k == 16 {
        "DLE"
    } else if k == 17 {
        "DC1"
    } else if k == 18 {
        "DC2"
    } else if k == 19 {
        "DC3"
    } else if k == 20 {
        "DC4"
    } else if k == 21 {
        "NAK"
    } else if k == 22 {
        "SYN"
    } else if k == 23 {
        "ETB"
    } else if k == 24 {
        "CAN"
    } else if k == 25 {
        "EM"
    } else if k == 26 {
        "SUB"
    } else if k == 27 {
        "ESC"
    } else if k == 28 {
        "FS"
    } else if k == 29 {
        "GS"
    } else if k == 30 {
        "RS"
    } else if k == 31 {
        "US"
    } else if k == 32 {
        "SP"
    } else {
        "DEL"
    }
}

/// Whether `t` begins with `a`.
pub open spec fn begins_with(t: Seq<char>, a: Seq<char>) -> bool {
    a.len() <= t.len() && t.take(a.len() as int) == a
}

/// The first name of an ASCII character, from place `k` on, that `t`
/// begins with: the character, whose code is the place of the name, and
/// the length of the name.
pub open spec fn named(t: Seq<char>, k: nat) -> Option<(char, nat)>
    decreases ASCII_NAMES - k,
{
    if k >= ASCII_NAMES {
        None
    } else if begins_with(t, ascii_name(k)) {
        Some(((k as u8) as char, ascii_name(k).len()))
    } else {
        named(t, k + 1)
    }
}

/// The character of a numeric escape with the number `v`: the character
/// with that code, or the replacement character if there is none.
pub open spec fn escape_value(v: nat) -> char {
    if v <= 0x10FFFF && is_scalar(v as u32) {
        (v as u32) as char
    } else {
        REPLACEMENT
    }
}

/// The number `v`, or the size at which the numbers of escapes are cut off
/// if `v` is greater.
pub open spec fn escape_cut(v: nat) -> u64 {
    if v > ESCAPE_CAP {
        ESCAPE_CAP
    } else {
        v as u64
    }
}

/// The diagnostic that the numeric escape from `begin` to `end` has the
/// number `v`, which is the code of no character.
pub open spec fn char_out_of_bound(begin: Location, end: Location, v: nat) -> Diagnostic {
    Diagnostic {
        location: end,
        range: Some(Range { begin, end }),
        message: DiagnosticMessage::Error(Error::CharOutOfBound(escape_cut(v))),
    }
}

/// The numeric escape that `t` begins with: digits of the class `class`,
/// read as a number to the base `base`.
pub open spec fn numeric_escape(t: Seq<char>, from: Location, class: u32, base: u32) -> Option<(char, Scanned)> {
    let m = run_length(DigitIn(class), t);
    if m > 0 {
        let v = radix_value(t.take(m as int), base as nat);
        let r = read(t, from, m);
        if v <= 0x10FFFF && is_scalar(v as u32) {
            Some((escape_value(v), r))
        } else {
            Some(
                (
                    escape_value(v),
                    Scanned { taken: m, place: r.place, reports: r.reports.push(char_out_of_bound(from, r.place, v)) },
                ),
            )
        }
    } else {
        None
    }
}

/// What follows the backslash of an escape: a letter that stands for a
/// character, `^` and a control character, the name of an ASCII
/// character, a decimal number, `o` and an octal number, or `x` and a
/// number of decimal digits that is read to the base 16.
pub open spec fn escape_tail(t: Seq<char>, from: Location) -> Option<(char, Scanned)> {
    if t.len() > 0 && char_esc(t[0]) is Some {
        Some((char_esc(t[0])->Some_0, read(t, from, 1)))
    } else if t.len() > 1 && t[0] == '^' && control(t[1]) is Some {
        Some((control(t[1])->Some_0, read(t, from, 2)))
    } else if named(t, 0) is Some {
        Some((named(t, 0)->Some_0.0, read(t, from, named(t, 0)->Some_0.1)))
    } else if numeric_escape(t, from, 10, 10) is Some {
        numeric_escape(t, from, 10, 10)
    } else if t.len() > 0 && t[0] == 'o' && numeric_escape(t.skip(1), from.stepped(1), 8, 8) is Some {
        let (c, x) = numeric_escape(t.skip(1), from.stepped(1), 8, 8)->Some_0;
        Some((c, then(read(t, from, 1), x)))
    } else if t.len() > 0 && t[0] == 'x' && numeric_escape(t.skip(1), from.stepped(1), 10, 16) is Some {
        let (c, x) = numeric_escape(t.skip(1), from.stepped(1), 10, 16)->Some_0;
        Some((c, then(read(t, from, 1), x)))
    } else {
        None
    }
}

/// The escape that `s` begins with: a backslash and what follows it.
pub open spec fn escape(s: Seq<char>, from: Location) -> Option<(char, Scanned)> {
    if s.len() > 0 && s[0] == '\\' {
        match escape_tail(s.skip(1), from.stepped(1)) {
            Some((c, x)) => Some((c, then(read(s, from, 1), x))),
            None => None,
        }
    } else {
        None
    }
}

/// All the characters of white space that `s` begins with.
pub open spec fn whitechars(s: Seq<char>, from: Location) -> Scanned
    decreases s.len(),
{
    match whitechar(s, from) {
        Some(x) => if 0 < x.taken <= s.len() {
            then(x, whitechars(s.skip(x.taken as int), x.place))
        } else {
            stayed(from)
        },
        None => stayed(from),
    }
}

/// The gap that `s` begins with: white space between two backslashes.
pub open spec fn gap(s: Seq<char>, from: Location) -> Option<Scanned> {
    if s.len() > 0 && s[0] == '\\' && whitechar(s.skip(1), from.stepped(1)) is Some {
        let w = whitechars(s.skip(1), from.stepped(1));
        let k = 1 + w.taken;
        if k < s.len() && s[k as int] == '\\' {
            Some(then(then(read(s, from, 1), w), read(s.skip(k as int), w.place, 1)))
        } else {
            None
        }
    } else {
        None
    }
}

/// The character literal that `s` begins with: between two `'`, a
/// character that is neither `'` nor a backslash, or an escape.
pub open spec fn char_literal(s: Seq<char>, from: Location) -> Option<(Token, Scanned)> {
    if s.len() > 1 && s[0] == '\'' {
        let t = s.skip(1);
        let item = if t[0] != '\'' && t[0] != '\\' {
            Some((t[0], read(t, from.stepped(1), 1)))
        } else {
            escape(t, from.stepped(1))
        };
        match item {
            Some((c, x)) => {
                let k = 1 + x.taken;
                if k < s.len() && s[k as int] == '\'' {
                    Some((Token::CharLiteral(c), then(then(read(s, from, 1), x), read(s.skip(k as int), x.place, 1))))
                } else {
                    None
                }
            },
            None => None,
        }
    } else {
        None
    }
}

/// One piece of a string literal: `\&`, which stands for nothing; a
/// character that is neither `"` nor a backslash; an escape; or a gap,
/// which stands for nothing.
pub open spec fn string_item(s: Seq<char>, from: Location) -> Option<(Option<char>, Scanned)> {
    if s.len() >= 2 && s[0] == '\\' && s[1] == '&' {
        Some((None, read(s, from, 2)))
    } else if s.len() >= 1 && s[0] != '"' && s[0] != '\\' {
        Some((Some(s[0]), read(s, from, 1)))
    } else if escape(s, from) is Some {
        Some((Some(escape(s, from)->Some_0.0), escape(s, from)->Some_0.1))
    } else {
        match gap(s, from) {
            Some(x) => Some((None, x)),
            None => None,
        }
    }
}

/// The characters that a piece of a string literal stands for.
pub open spec fn item_text(c: Option<char>) -> Seq<char> {
    match c {
        Some(c) => seq![c],
        None => Seq::empty(),
    }
}

/// All the pieces of a string literal that `s` begins with: what they
/// stand for, and what reading them does.
pub open spec fn string_body(s: Seq<char>, from: Location) -> (Seq<char>, Scanned)
    decreases s.len(),
{
    match string_item(s, from) {
        Some((c, x)) => if 0 < x.taken <= s.len() {
            let (cs, y) = string_body(s.skip(x.taken as int), x.place);
            (item_text(c) + cs, then(x, y))
        } else {
            (Seq::empty(), stayed(from))
        },
        None => (Seq::empty(), stayed(from)),
    }
}

/// The string literal that `s` begins with: pieces between two `"`.
pub open spec fn string_literal(s: Seq<char>, from: Location) -> Option<(Token, Scanned)> {
    if s.len() > 0 && s[0] == '"' {
        let (cs, x) = string_body(s.skip(1), from.stepped(1));
        let k = 1 + x.taken;
        if k < s.len() && s[k as int] == '"' {
            Some((Token::StringLiteral(cs), then(then(read(s, from, 1), x), read(s.skip(k as int), x.place, 1))))
        } else {
            None
        }
    } else {
        None
    }
}

/// The character or string literal that `s` begins with.
pub open spec fn char_or_string(s: Seq<char>, from: Location) -> Option<(Token, Scanned)> {
    if char_literal(s, from) is Some {
        char_literal(s, from)
    } else {
        string_literal(s, from)
    }
}

/// A run of whitechars takes no more than there is.
pub proof fn lemma_whitechars_taken(s: Seq<char>, from: Location)
    ensures
        whitechars(s, from).taken <= s.len(),
    decreases s.len(),
{
    match whitechar(s, from) {
        Some(x) => {
            if 0 < x.taken <= s.len() {
                lemma_whitechars_taken(s.skip(x.taken as int), x.place);
            }
        },
        None => {},
    }
}

impl Scanner {
    /// Whether the characters from `at` places on begin with `name`.
    pub fn starts_with(&self, at: usize, name: &str) -> (r: bool)
        requires
            self.wf(),
            at <= self.rest().len(),
        ensures
            r == begins_with(self.rest().skip(at as int), name@),
    {
        let n = name.unicode_len();
        let ghost t = self.rest().skip(at as int);
        if n > self.remaining() - at {
            return false;
        }
        let mut i: usize = 0;
        while i < n
            invariant
                self.wf(),
                t == self.rest().skip(at as int),
                n == name@.len(),
                i <= n,
                at + n <= self.rest().len(),
                forall|k: int| 0 <= k < i ==> t[k] == name@[k],
            decreases n - i,
        {
            if self.peek_at(at + i).unwrap() != name.get_char(i) {
                proof {
                    assert(t.take(n as int)[i as int] == t[i as int]);
                }
                return false;
            }
            i += 1;
        }
        proof {
            assert(t.take(n as int) =~= name@);
        }
        true
    }

    /// Reads the text `s` if it is next, and nothing if it is not; says
    /// whether it was.
    pub fn match_str(&mut self, s: &str) -> (r: bool)
        requires
            old(self).wf(),
        ensures
            r == begins_with(old(self).rest(), s@),
            r ==> old(self).went(final(self), read(old(self).rest(), old(self).place(), s@.len())),
            !r ==> old(self).same(final(self)),
    {
        proof {
            assert(self.rest().skip(0) =~= self.rest());
        }
        if self.starts_with(0, s) {
            self.advance(s.unicode_len());
            true
        } else {
            false
        }
    }

    /// The name of an ASCII character that begins `at` places on.
    fn find_named(&self, at: usize) -> (r: Option<(char, usize)>)
        requires
            self.wf(),
            at <= self.rest().len(),
        ensures
            match named(self.rest().skip(at as int), 0) {
                Some((c, n)) => r == Some((c, n as usize)) && at + n <= self.rest().len(),
                None => r is None,
            },
    {
        let ghost t = self.rest().skip(at as int);
        let mut k: usize = 0;
        while k < ASCII_NAMES
            invariant
                self.wf(),
                at <= self.rest().len(),
                t == self.rest().skip(at as int),
                k <= ASCII_NAMES,
                named(t, 0) == named(t, k as nat),
            decreases ASCII_NAMES - k,
        {
            let name = name_of(k);
            if self.starts_with(at, name) {
                let code: u8 = k as u8;
                return Some((code as char, name.unicode_len()));
            }
            k += 1;
        }
        None
    }

    /// Reads a numeric escape of digits of the class `class`, as a number
    /// to the base `base`, if one is next.
    fn numeric_escape(&mut self, class: u32, base: u32) -> (r: Option<char>)
        requires
            old(self).wf(),
            2 <= base <= 16,
        ensures
            match numeric_escape(old(self).rest(), old(self).place(), class, base) {
                Some((c, x)) => r == Some(c) && old(self).went(final(self), x),
                None => r is None && old(self).same(final(self)),
            },
    {
        let ghost s = self.rest();
        let m = self.count_run(&DigitIn(class), 0);
        proof {
            assert(s.skip(0) =~= s);
        }
        if m == 0 {
            return None;
        }
        let v = self.capped_value(0, m, base, ESCAPE_CAP);
        proof {
            assert(s.take(m as int) =~= s.subrange(0, m as int));
        }
        let begin = self.location();
        self.advance(m);
        if v <= 0x10FFFF && (v < 0xD800 || 0xE000 <= v) {
            Some(display_char(v as u32))
        } else {
            let end = self.location();
            let d = Diagnostic::new(end, DiagnosticMessage::Error(Error::CharOutOfBound(v)));
            self.report(d.within(begin, end));
            Some(REPLACEMENT)
        }
    }

    /// Reads what follows the backslash of an escape, if it is next.
    fn escape_tail(&mut self) -> (r: Option<char>)
        requires
            old(self).wf(),
        ensures
            match escape_tail(old(self).rest(), old(self).place()) {
                Some((c, x)) => r == Some(c) && old(self).went(final(self), x),
                None => r is None && old(self).same(final(self)),
            },
    {
        let ghost t = self.rest();
        let ghost from = self.place();
        let total = self.remaining();
        if total > 0 {
            match find_char_esc(self.peek_at(0).unwrap()) {
                Some(c) => {
                    self.advance(1);
                    return Some(c);
                },
                None => {},
            }
        }
        if total > 1 && self.peek_at(0).unwrap() == '^' {
            match find_control(self.peek_at(1).unwrap()) {
                Some(c) => {
                    self.advance(2);
                    return Some(c);
                },
                None => {},
            }
        }
        proof {
            assert(t.skip(0) =~= t);
        }
        match self.find_named(0) {
            Some((c, n)) => {
                self.advance(n);
                return Some(c);
            },
            None => {},
        }
        match self.numeric_escape(10, 10) {
            Some(c) => {
                return Some(c);
            },
            None => {},
        }
        if total > 0 && self.peek_at(0).unwrap() == 'o' {
            let a = self.anchor();
            self.advance(1);
            let ghost mid = *self;
            match self.numeric_escape(8, 8) {
                Some(c) => {
                    proof {
                        let x = numeric_escape(t.skip(1), from.stepped(1), 8, 8)->Some_0.1;
                        old(self).lemma_went_then(&mid, self, read(t, from, 1), x);
                    }
                    return Some(c);
                },
                None => {
                    proof {
                        old(self).lemma_went_follows(&mid, read(t, from, 1));
                    }
                    self.revert(&a);
                },
            }
        }
        if total > 0 && self.peek_at(0).unwrap() == 'x' {
            let a = self.anchor();
            self.advance(1);
            let ghost mid = *self;
            match self.numeric_escape(10, 16) {
                Some(c) => {
                    proof {
                        let x = numeric_escape(t.skip(1), from.stepped(1), 10, 16)->Some_0.1;
                        old(self).lemma_went_then(&mid, self, read(t, from, 1), x);
                    }
                    return Some(c);
                },
                None => {
                    proof {
                        old(self).lemma_went_follows(&mid, read(t, from, 1));
                    }
                    self.revert(&a);
                },
            }
        }
        None
    }

    /// Reads an escape, if one is next.
    pub fn escape(&mut self) -> (r: Option<char>)
        requires
            old(self).wf(),
        ensures
            match escape(old(self).rest(), old(self).place()) {
                Some((c, x)) => r == Some(c) && old(self).went(final(self), x),
                None => r is None && old(self).same(final(self)),
            },
    {
        let ghost s = self.rest();
        let ghost from = self.place();
        if self.peek() != Some('\\') {
            return None;
        }
        let a = self.anchor();
        self.advance(1);
        let ghost mid = *self;
        match self.escape_tail() {
            Some(c) => {
                proof {
                    let x = escape_tail(s.skip(1), from.stepped(1))->Some_0.1;
                    old(self).lemma_went_then(&mid, self, read(s, from, 1), x);
                }
                Some(c)
            },
            None => {
                proof {
                    old(self).lemma_went_follows(&mid, read(s, from, 1));
                }
                self.revert(&a);
                None
            },
        }
    }

    /// Reads all the characters of white space that are next.
    fn whitechars(&mut self)
        requires
            old(self).wf(),
        ensures
            old(self).went(final(self), whitechars(old(self).rest(), old(self).place())),
    {
        let ghost mut done = stayed(self.place());
        proof {
            assert(self.rest() =~= old(self).rest().skip(0));
            assert(self.reports() =~= old(self).reports() + done.reports);
            let rest = whitechars(self.rest(), self.place());
            assert(then(done, rest).reports =~= rest.reports);
        }
        loop
            invariant
                self.wf(),
                old(self).went(self, done),
                whitechars(old(self).rest(), old(self).place()) == then(done, whitechars(self.rest(), self.place())),
            ensures
                old(self).went(self, whitechars(old(self).rest(), old(self).place())),
            decreases self.rest().len(),
        {
            let ghost before = *self;
            let ghost so_far = done;
            match self.whitechar() {
                Some(_) => {
                    proof {
                        let x = whitechar(before.rest(), before.place())->Some_0;
                        done = then(so_far, x);
                        old(self).lemma_went_then(&before, self, so_far, x);
                        let rest = whitechars(self.rest(), self.place());
                        assert(then(so_far, then(x, rest)).reports =~= then(done, rest).reports);
                    }
                },
                None => {
                    proof {
                        let rest = whitechars(self.rest(), self.place());
                        assert(then(done, rest).reports =~= done.reports);
                    }
                    break ;
                },
            }
        }
    }

    /// Reads a gap, if one is next.
    fn gap(&mut self) -> (r: Option<()>)
        requires
            old(self).wf(),
        ensures
            match gap(old(self).rest(), old(self).place()) {
                Some(x) => r is Some && old(self).went(final(self), x),
                None => r is None && old(self).same(final(self)),
            },
    {
        let ghost s = self.rest();
        let ghost from = self.place();
        if self.peek() != Some('\\') {
            return None;
        }
        let a = self.anchor();
        self.advance(1);
        let ghost mid = *self;
        let before = self.remaining();
        self.whitechars();
        let ghost w = whitechars(s.skip(1), from.stepped(1));
        let ghost after = *self;
        proof {
            old(self).lemma_went_then(&mid, &after, read(s, from, 1), w);
            lemma_whitechars_taken(s.skip(1), from.stepped(1));
        }
        if self.remaining() == before {
            proof {
                old(self).lemma_went_follows(&after, then(read(s, from, 1), w));
            }
            self.revert(&a);
            return None;
        }
        if self.peek() == Some('\\') {
            self.advance(1);
            proof {
                let k = 1 + w.taken;
                assert(after.rest() =~= s.skip(k as int));
                old(self).lemma_went_then(
                    &after,
                    self,
                    then(read(s, from, 1), w),
                    read(s.skip(k as int), w.place, 1),
                );
            }
            Some(())
        } else {
            proof {
                old(self).lemma_went_follows(&after, then(read(s, from, 1), w));
                let k = 1 + w.taken;
                assert(after.rest() =~= s.skip(k as int));
            }
            self.revert(&a);
            None
        }
    }

    /// Reads a character literal, if one is next.
    pub fn char_literal(&mut self) -> (r: Option<Lexeme>)
        requires
            old(self).wf(),
        ensures
            match char_literal(old(self).rest(), old(self).place()) {
                Some((t, x)) => r matches Some(l) && l@ == t && old(self).went(final(self), x),
                None => r is None && old(self).same(final(self)),
            },
    {
        let ghost s = self.rest();
        let ghost from = self.place();
        if !(self.remaining() > 1 && self.peek() == Some('\'')) {
            return None;
        }
        let a = self.anchor();
        self.advance(1);
        let ghost mid = *self;
        let c = self.peek().unwrap();
        let item = if c != '\'' && c != '\\' {
            self.advance(1);
            Some(c)
        } else {
            self.escape()
        };
        let ghost after = *self;
        match item {
            Some(c) => {
                let ghost x = if s[1] != '\'' && s[1] != '\\' {
                    read(s.skip(1), from.stepped(1), 1)
                } else {
                    escape(s.skip(1), from.stepped(1))->Some_0.1
                };
                proof {
                    old(self).lemma_went_then(&mid, &after, read(s, from, 1), x);
                    assert(after.rest() =~= s.skip(1 + x.taken as int));
                }
                if self.peek() == Some('\'') {
                    self.advance(1);
                    proof {
                        old(self).lemma_went_then(
                            &after,
                            self,
                            then(read(s, from, 1), x),
                            read(s.skip(1 + x.taken as int), x.place, 1),
                        );
                    }
                    Some(Lexeme::CharLiteral(c))
                } else {
                    proof {
                        old(self).lemma_went_follows(&after, then(read(s, from, 1), x));
                    }
                    self.revert(&a);
                    None
                }
            },
            None => {
                proof {
                    old(self).lemma_went_follows(&mid, read(s, from, 1));
                }
                self.revert(&a);
                None
            },
        }
    }

    /// Reads a piece of a string literal, if one is next.
    fn string_item(&mut self) -> (r: Option<Option<char>>)
        requires
            old(self).wf(),
        ensures
            match string_item(old(self).rest(), old(self).place()) {
                Some((c, x)) => r == Some(c) && old(self).went(final(self), x),
                None => r is None && old(self).same(final(self)),
            },
    {
        let total = self.remaining();
        if total >= 2 && self.peek_at(0).unwrap() == '\\' && self.peek_at(1).unwrap() == '&' {
            self.advance(2);
            return Some(None);
        }
        if total >= 1 {
            let c = self.peek_at(0).unwrap();
            if c != '"' && c != '\\' {
                self.advance(1);
                return Some(Some(c));
            }
        }
        match self.escape() {
            Some(c) => {
                return Some(Some(c));
            },
            None => {},
        }
        match self.gap() {
            Some(_) => Some(None),
            None => None,
        }
    }

    /// Reads all the pieces of a string literal that are next, and gives
    /// what they stand for.
    fn string_body(&mut self) -> (r: String)
        requires
            old(self).wf(),
        ensures
            r@ == string_body(old(self).rest(), old(self).place()).0,
            old(self).went(final(self), string_body(old(self).rest(), old(self).place()).1),
    {
        let mut text = String::new();
        let ghost mut done = stayed(self.place());
        proof {
            assert(self.rest() =~= old(self).rest().skip(0));
            assert(self.reports() =~= old(self).reports() + done.reports);
            let rest = string_body(self.rest(), self.place()).1;
            assert(then(done, rest).reports =~= rest.reports);
            assert(text@ + string_body(self.rest(), self.place()).0 =~= string_body(self.rest(), self.place()).0);
        }
        loop
            invariant
                self.wf(),
                old(self).went(self, done),
                string_body(old(self).rest(), old(self).place()).1 == then(
                    done,
                    string_body(self.rest(), self.place()).1,
                ),
                string_body(old(self).rest(), old(self).place()).0 == text@ + string_body(
                    self.rest(),
                    self.place(),
                ).0,
            ensures
                text@ == string_body(old(self).rest(), old(self).place()).0,
                old(self).went(self, string_body(old(self).rest(), old(self).place()).1),
            decreases self.rest().len(),
        {
            let ghost before = *self;
            let ghost so_far = done;
            let ghost text_before = text@;
            match self.string_item() {
                Some(c) => {
                    match c {
                        Some(c) => {
                            push_char(&mut text, c);
                        },
                        None => {},
                    }
                    proof {
                        let x = string_item(before.rest(), before.place())->Some_0.1;
                        done = then(so_far, x);
                        old(self).lemma_went_then(&before, self, so_far, x);
                        let rest = string_body(self.rest(), self.place());
                        assert(then(so_far, then(x, rest.1)).reports =~= then(done, rest.1).reports);
                        assert(text@ =~= text_before + item_text(c));
                        assert(text_before + (item_text(c) + rest.0) =~= text@ + rest.0);
                    }
                },
                None => {
                    proof {
                        let rest = string_body(self.rest(), self.place());
                        assert(then(done, rest.1).reports =~= done.reports);
                        assert(text@ + rest.0 =~= text@);
                    }
                    break ;
                },
            }
        }
        text
    }

    /// Reads a string literal, if one is next.
    pub fn string_literal(&mut self) -> (r: Option<Lexeme>)
        requires
            old(self).wf(),
        ensures
            match string_literal(old(self).rest(), old(self).place()) {
                Some((t, x)) => r matches Some(l) && l@ == t && old(self).went(final(self), x),
                None => r is None && old(self).same(final(self)),
            },
    {
        let ghost s = self.rest();
        let ghost from = self.place();
        if self.peek() != Some('"') {
            return None;
        }
        let a = self.anchor();
        self.advance(1);
        let ghost mid = *self;
        let text = self.string_body();
        let ghost after = *self;
        let ghost x = string_body(s.skip(1), from.stepped(1)).1;
        proof {
            old(self).lemma_went_then(&mid, &after, read(s, from, 1), x);
            assert(after.rest() =~= s.skip(1 + x.taken as int));
        }
        if self.peek() == Some('"') {
            self.advance(1);
            proof {
                old(self).lemma_went_then(
                    &after,
                    self,
                    then(read(s, from, 1), x),
                    read(s.skip(1 + x.taken as int), x.place, 1),
                );
            }
            Some(Lexeme::StringLiteral(text))
        } else {
            proof {
                old(self).lemma_went_follows(&after, then(read(s, from, 1), x));
            }
            self.revert(&a);
            None
        }
    }

    /// Reads a character or string literal; fails, for another rule to be
    /// tried, if none is next.
    pub fn char_or_string(&mut self) -> (r: ScanResult<Lexeme>)
        requires
            old(self).wf(),
        ensures
            match char_or_string(old(self).rest(), old(self).place()) {
                Some((t, x)) => r matches Result3::Success(l) && l@ == t && old(self).went(final(self), x),
                None => r is RetryLater && old(self).same(final(self)),
            },
    {
        match self.char_literal() {
            Some(l) => {
                return Result3::Success(l);
            },
            None => {},
        }
        match self.string_literal() {
            Some(l) => Result3::Success(l),
            None => Scanner::keep_trying(),
        }
    }
}

} // verus!
