//! The scanner for Haskell source text, and the places in it.

pub mod basic;
pub mod char_string;
pub mod combinator;
pub mod identifier;
pub mod layout;
pub mod numeric;
pub mod special;
pub mod whitespace;

use vstd::prelude::*;
use crate::char::CharPredicate;
use crate::error::{invalid_char, Diagnostic, DiagnosticMessage, Error};
use crate::lexeme::LexemeType;
use crate::scanner::basic::Any;
use crate::text::{push_char, push_decimal, decimal};
use crate::utils::{round_to, Result3};

verus! {

/// The width of a tab stop.
pub const TAB_SIZE: usize = 8;

/// The longest input that a scanner takes: columns are counted in a `usize`,
/// and a tab may take nine of them.
pub const MAX_INPUT: usize = 0x0FFF_FFFF;

/// A place in the source.
#[derive(Debug, Copy, Clone, PartialEq, Eq, Structural)]
pub struct Location {
    /// The line, beginning with 1.
    pub line: usize,
    /// The column, beginning with 1.
    pub column: usize,
    /// The number of characters before the place.
    pub offset: usize,
}

impl Location {
    /// The place at which every source begins.
    pub fn new() -> (r: Self)
        ensures
            r == (Location { line: 1, column: 1, offset: 0 }),
    {
        Location { line: 1, column: 1, offset: 0 }
    }

    /// One character further on the line.
    pub fn step(&mut self)
        requires
            old(self).column < usize::MAX,
            old(self).offset < usize::MAX,
        ensures
            *final(self) == (Location {
                line: old(self).line,
                column: (old(self).column + 1) as usize,
                offset: (old(self).offset + 1) as usize,
            }),
    {
        self.column += 1;
        self.offset += 1;
    }

    /// To the first column of the next line.
    pub fn newline(&mut self)
        requires
            old(self).line < usize::MAX,
        ensures
            *final(self) == old(self).next_line(),
    {
        self.column = 1;
        self.line += 1;
    }

    /// One character further, and then on to the next tab stop.
    pub fn tablise(&mut self)
        requires
            old(self).column <= usize::MAX - TAB_SIZE,
            old(self).offset < usize::MAX,
        ensures
            final(self).line == old(self).line,
            final(self).offset == old(self).offset + 1,
            final(self).column % TAB_SIZE == 0,
            old(self).column + 1 <= final(self).column < old(self).column + 1 + TAB_SIZE,
            *final(self) == old(self).tabbed(),
    {
        self.step();
        self.column = round_to(self.column, TAB_SIZE);
    }

    /// The place `n` characters further on the line.
    pub open spec fn stepped(self, n: nat) -> Location {
        Location { line: self.line, column: (self.column + n) as usize, offset: (self.offset + n) as usize }
    }

    /// The place at the first column of the next line.
    pub open spec fn next_line(self) -> Location {
        Location { line: (self.line + 1) as usize, column: 1, offset: self.offset }
    }

    /// The place one character further, and then on at the next tab stop.
    pub open spec fn tabbed(self) -> Location {
        Location {
            line: self.line,
            column: ((self.column + 8) / 8 * 8) as usize,
            offset: (self.offset + 1) as usize,
        }
    }

    /// The printed form: line and column.
    pub open spec fn text(self) -> Seq<char> {
        decimal(self.line as nat) + seq![':'] + decimal(self.column as nat)
    }

    /// Appends the printed form to `out`.
    pub fn write_to(&self, out: &mut String)
        ensures
            final(out)@ == old(out)@ + self.text(),
    {
        push_decimal(out, self.line as u64);
        push_char(out, ':');
        push_decimal(out, self.column as u64);
        proof {
            assert(out@ =~= old(out)@ + self.text());
        }
    }

    /// The printed form as a string of its own.
    pub fn to_string(&self) -> (s: String)
        ensures
            s@ == self.text(),
    {
        let mut s = String::new();
        self.write_to(&mut s);
        proof {
            assert(s@ =~= self.text());
        }
        s
    }
}

/// A stretch of the source: from `begin` up to, not including, `end`.
#[derive(Debug, Copy, Clone, PartialEq, Eq, Structural)]
pub struct Range {
    pub begin: Location,
    pub end: Location,
}

impl Range {
    /// The printed form: both ends.
    pub open spec fn text(self) -> Seq<char> {
        self.begin.text() + seq!['-'] + self.end.text()
    }

    /// The printed form as a string.
    pub fn to_string(&self) -> (s: String)
        ensures
            s@ == self.text(),
    {
        let mut s = String::new();
        self.begin.write_to(&mut s);
        push_char(&mut s, '-');
        self.end.write_to(&mut s);
        proof {
            assert(s@ =~= self.text());
        }
        s
    }
}

/// A lexical error.
#[derive(Debug, Copy, Clone, PartialEq, Eq)]
pub struct LexError {
    /// The kind of lexeme that was expected.
    pub expected: LexemeType,
    /// The character at which scanning failed, if the input had not ended.
    pub unexpected: Option<char>,
}

/// What a scanner returns.
pub type ScanResult<T> = Result3<T, LexError, ()>;

/// The diagnostics for the characters among the first `n` of `s` that the
/// language does not accept, where the first is read from `place` on.
pub open spec fn invalid_reports(s: Seq<char>, place: Location, n: nat) -> Seq<Diagnostic>
    decreases n,
{
    if n == 0 || n > s.len() {
        Seq::empty()
    } else {
        let before = invalid_reports(s, place, (n - 1) as nat);
        if Any.holds(s[n - 1]) {
            before
        } else {
            before.push(invalid_char(place.stepped(n), s[n - 1]))
        }
    }
}

/// A mark of where a scanner was.
pub struct Anchor {
    index: usize,
    location: Location,
    count: usize,
    origin: Ghost<Scanner>,
}

impl Anchor {
    #[verifier::type_invariant]
    spec fn inv(&self) -> bool {
        &&& self.index == self.origin@.index
        &&& self.location == self.origin@.location
        &&& self.count == self.origin@.diagnostics@.len()
    }

    /// The scanner as it was when the mark was made.
    pub closed spec fn origin(&self) -> Scanner {
        self.origin@
    }
}

/// A scanner over the characters of a source: the characters that were not
/// read yet, the place of the next one, and what was reported so far.
pub struct Scanner {
    input: Vec<char>,
    index: usize,
    location: Location,
    diagnostics: Vec<Diagnostic>,
}

impl Scanner {
    /// The characters that were not read yet.
    pub closed spec fn rest(&self) -> Seq<char> {
        self.input@.subrange(self.index as int, self.input@.len() as int)
    }

    /// The place of the next character.
    pub closed spec fn place(&self) -> Location {
        self.location
    }

    /// What was reported so far.
    pub closed spec fn reports(&self) -> Seq<Diagnostic> {
        self.diagnostics@
    }

    /// The number of characters that were read.
    pub closed spec fn consumed(&self) -> nat {
        self.index as nat
    }

    /// All the characters of the source.
    pub closed spec fn source(&self) -> Seq<char> {
        self.input@
    }

    /// This scanner has come from where `origin` was: it reads the same
    /// source, has read no less, and has reported what `origin` had and
    /// perhaps more.
    pub open spec fn follows(&self, origin: &Scanner) -> bool {
        &&& self.source() == origin.source()
        &&& origin.consumed() <= self.consumed()
        &&& origin.reports().len() <= self.reports().len()
        &&& self.reports().take(origin.reports().len() as int) == origin.reports()
    }

    /// The invariant of a scanner.
    pub closed spec fn wf(&self) -> bool {
        &&& self.index <= self.input@.len()
        &&& self.input@.len() <= MAX_INPUT
        &&& self.location.offset <= 2 * self.index
        &&& self.location.column <= 9 * self.index + 1
        &&& self.location.line <= self.index + 1
    }

    /// A scanner at the beginning of `input`.
    pub fn new(input: Vec<char>) -> (r: Self)
        requires
            input@.len() <= MAX_INPUT,
        ensures
            r.wf(),
            r.rest() == input@,
            r.place() == (Location { line: 1, column: 1, offset: 0 }),
            r.reports().len() == 0,
            r.source() == input@,
            r.consumed() == 0,
    {
        let r = Scanner { input, index: 0, location: Location::new(), diagnostics: Vec::new() };
        proof {
            assert(r.rest() =~= r.input@);
        }
        r
    }

    /// The place of the next character.
    pub fn location(&self) -> (r: Location)
        ensures
            r == self.place(),
    {
        self.location
    }

    /// What was reported so far.
    pub fn diagnostics(&self) -> (r: &Vec<Diagnostic>)
        ensures
            r@ == self.reports(),
    {
        &self.diagnostics
    }

    /// The number of characters that were not read yet.
    pub fn remaining(&self) -> (n: usize)
        requires
            self.wf(),
        ensures
            n == self.rest().len(),
    {
        self.input.len() - self.index
    }

    /// The next character, which stays unread.
    pub fn peek(&self) -> (r: Option<char>)
        requires
            self.wf(),
        ensures
            r == if self.rest().len() > 0 {
                Some(self.rest()[0])
            } else {
                None
            },
    {
        if self.index < self.input.len() {
            Some(self.input[self.index])
        } else {
            None
        }
    }

    /// The character `k` places on, which stays unread.
    pub fn peek_at(&self, k: usize) -> (r: Option<char>)
        requires
            self.wf(),
        ensures
            r == if k < self.rest().len() {
                Some(self.rest()[k as int])
            } else {
                None
            },
    {
        if k < self.input.len() - self.index {
            Some(self.input[self.index + k])
        } else {
            None
        }
    }

    /// Reads the next character, and reports it if the language does not
    /// accept it.
    pub fn next(&mut self) -> (r: Option<char>)
        requires
            old(self).wf(),
        ensures
            final(self).wf(),
            match r {
                Some(c) => old(self).rest().len() > 0 && c == old(self).rest()[0] && final(self).rest() == old(
                    self,
                ).rest().drop_first() && final(self).place() == old(self).place().stepped(1),
                None => old(self).rest().len() == 0 && final(self).rest() == old(self).rest() && final(self).place()
                    == old(self).place(),
            },
            final(self).reports() == old(self).reports() + invalid_reports(old(self).rest(), old(self).place(), 1),
            final(self).consumed() == old(self).consumed() + if r is Some {
                1nat
            } else {
                0nat
            },
            final(self).source() == old(self).source(),
    {
        if self.index < self.input.len() {
            let c = self.input[self.index];
            self.index += 1;
            self.location.step();
            if !Any.check(c) {
                let d = Diagnostic::new(self.location, DiagnosticMessage::Error(Error::InvalidChar(c)));
                d.report(&mut self.diagnostics);
            }
            proof {
                assert(self.rest() =~= old(self).rest().drop_first());
                let s = old(self).rest();
                assert(invalid_reports(s, old(self).place(), 0) =~= Seq::<Diagnostic>::empty());
                assert(self.reports() =~= old(self).reports() + invalid_reports(s, old(self).place(), 1));
            }
            Some(c)
        } else {
            proof {
                assert(self.reports() =~= old(self).reports() + invalid_reports(
                    old(self).rest(),
                    old(self).place(),
                    1,
                ));
            }
            None
        }
    }

    /// Reads `n` characters.
    pub fn advance(&mut self, n: usize)
        requires
            old(self).wf(),
            n <= old(self).rest().len(),
        ensures
            final(self).wf(),
            final(self).rest() == old(self).rest().skip(n as int),
            final(self).place() == old(self).place().stepped(n as nat),
            final(self).reports() == old(self).reports() + invalid_reports(
                old(self).rest(),
                old(self).place(),
                n as nat,
            ),
            final(self).consumed() == old(self).consumed() + n,
            final(self).source() == old(self).source(),
    {
        let mut k: usize = 0;
        proof {
            assert(self.rest() =~= old(self).rest().skip(0));
            assert(self.reports() =~= old(self).reports() + invalid_reports(old(self).rest(), old(self).place(), 0));
        }
        while k < n
            invariant
                k <= n <= old(self).rest().len(),
                self.wf(),
                old(self).wf(),
                self.rest() == old(self).rest().skip(k as int),
                self.place() == old(self).place().stepped(k as nat),
                self.reports() == old(self).reports() + invalid_reports(old(self).rest(), old(self).place(), k as nat),
                self.consumed() == old(self).consumed() + k,
                self.source() == old(self).source(),
            decreases n - k,
        {
            let ghost before = *self;
            let _ = self.next();
            proof {
                let s = old(self).rest();
                let p = old(self).place();
                assert(self.rest() =~= s.skip(k + 1));
                assert(before.rest()[0] == s[k as int]);
                assert(invalid_reports(before.rest(), before.place(), 0) =~= Seq::<Diagnostic>::empty());
                assert(before.place().stepped(1) == p.stepped((k + 1) as nat));
                assert(self.reports() =~= old(self).reports() + invalid_reports(s, p, (k + 1) as nat));
            }
            k += 1;
        }
    }

    /// Reads the `n` characters of a line break, and goes to the next line.
    pub fn break_line(&mut self, n: usize)
        requires
            old(self).wf(),
            1 <= n <= old(self).rest().len(),
        ensures
            final(self).wf(),
            final(self).rest() == old(self).rest().skip(n as int),
            final(self).place() == old(self).place().stepped(n as nat).next_line(),
            final(self).reports() == old(self).reports() + invalid_reports(
                old(self).rest(),
                old(self).place(),
                n as nat,
            ),
            final(self).consumed() == old(self).consumed() + n,
            final(self).source() == old(self).source(),
    {
        self.advance(n);
        self.location.newline();
    }

    /// Reads a tab, and goes to the next tab stop.
    pub fn take_tab(&mut self)
        requires
            old(self).wf(),
            old(self).rest().len() >= 1,
        ensures
            final(self).wf(),
            final(self).rest() == old(self).rest().skip(1),
            final(self).place() == old(self).place().stepped(1).tabbed(),
            final(self).reports() == old(self).reports() + invalid_reports(old(self).rest(), old(self).place(), 1),
            final(self).consumed() == old(self).consumed() + 1,
            final(self).source() == old(self).source(),
    {
        self.advance(1);
        self.location.tablise();
    }

    /// Hands a diagnostic in.
    pub fn report(&mut self, d: Diagnostic)
        requires
            old(self).wf(),
        ensures
            final(self).wf(),
            final(self).rest() == old(self).rest(),
            final(self).place() == old(self).place(),
            final(self).reports() == old(self).reports().push(d),
            final(self).consumed() == old(self).consumed(),
            final(self).source() == old(self).source(),
    {
        d.report(&mut self.diagnostics);
    }

    /// A scanner in order has read no more than there is.
    pub proof fn lemma_read_within(&self)
        requires
            self.wf(),
        ensures
            self.consumed() <= self.source().len(),
    {
    }

    /// Marks where the scanner is, so that it can come back.
    pub fn anchor(&self) -> (a: Anchor)
        requires
            self.wf(),
        ensures
            a.origin() == *self,
    {
        Anchor { index: self.index, location: self.location, count: self.diagnostics.len(), origin: Ghost(*self) }
    }

    /// Brings the scanner back to where it was marked: what was read since
    /// is unread, and what was reported since is dropped.
    pub fn revert(&mut self, a: &Anchor)
        requires
            old(self).wf(),
            a.origin().wf(),
            old(self).follows(&a.origin()),
        ensures
            final(self).wf(),
            final(self).rest() == a.origin().rest(),
            final(self).place() == a.origin().place(),
            final(self).reports() == a.origin().reports(),
            final(self).consumed() == a.origin().consumed(),
            final(self).source() == a.origin().source(),
    {
        proof {
            use_type_invariant(a);
        }
        self.index = a.index;
        self.location = a.location;
        self.diagnostics.truncate(a.count);
        proof {
            assert(self.diagnostics@ =~= a.origin().diagnostics@);
        }
    }

    /// Fails for good: a lexeme of type `t` was expected.
    pub fn expected<T>(&self, t: LexemeType) -> (r: ScanResult<T>)
        requires
            self.wf(),
        ensures
            r matches Result3::FailFast(e) && e.expected == t && e.unexpected == if self.rest().len() > 0 {
                Some(self.rest()[0])
            } else {
                None::<char>
            },
    {
        Result3::FailFast(self.err_expected(t))
    }

    /// Fails so that another rule may be tried.
    pub fn keep_trying<T>() -> (r: ScanResult<T>)
        ensures
            r is RetryLater,
    {
        Result3::RetryLater(())
    }

    /// The error that a lexeme of type `t` was expected here.
    pub fn err_expected(&self, t: LexemeType) -> (e: LexError)
        requires
            self.wf(),
        ensures
            e.expected == t,
            e.unexpected == if self.rest().len() > 0 {
                Some(self.rest()[0])
            } else {
                None::<char>
            },
    {
        LexError { expected: t, unexpected: self.peek() }
    }
}

impl crate::char::Stream for Scanner {
    open spec fn remaining(&self) -> Seq<char> {
        self.rest()
    }

    open spec fn ready(&self) -> bool {
        self.wf()
    }

    fn peek(&mut self) -> (r: Option<char>) {
        Scanner::peek(self)
    }

    fn next(&mut self) -> (r: Option<char>) {
        Scanner::next(self)
    }
}

} // verus!
