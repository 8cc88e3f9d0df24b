//! White space and comments.

use vstd::prelude::*;
use crate::buffer::run_length;
use crate::char::{unicode_symbol, unicode_whitespace, CharPredicate, Unicode};
use crate::error::{Diagnostic, DiagnosticMessage, Error};
use crate::lexeme::LexemeType;
use crate::scanner::{invalid_reports, Location, Range, ScanResult, Scanner};
use crate::utils::Result3;

verus! {

/// What a rule of the scanner did: how many characters it read, the place
/// that it came to, and what it reported.
pub ghost struct Scanned {
    pub taken: nat,
    pub place: Location,
    pub reports: Seq<Diagnostic>,
}

/// Reading `n` characters of `s` from the place `from` on.
pub open spec fn read(s: Seq<char>, from: Location, n: nat) -> Scanned {
    Scanned { taken: n, place: from.stepped(n), reports: invalid_reports(s, from, n) }
}

/// Reading the `n` characters of a line break.
pub open spec fn broke(s: Seq<char>, from: Location, n: nat) -> Scanned {
    Scanned { taken: n, place: from.stepped(n).next_line(), reports: invalid_reports(s, from, n) }
}

/// `a`, and then `b`.
pub open spec fn then(a: Scanned, b: Scanned) -> Scanned {
    Scanned { taken: a.taken + b.taken, place: b.place, reports: a.reports + b.reports }
}

/// Nothing read.
pub open spec fn stayed(from: Location) -> Scanned {
    Scanned { taken: 0, place: from, reports: Seq::empty() }
}

impl Scanner {
    /// The scanner `after` is this scanner after `x` was done.
    pub open spec fn went(&self, after: &Scanner, x: Scanned) -> bool {
        &&& after.wf()
        &&& x.taken <= self.rest().len()
        &&& after.rest() == self.rest().skip(x.taken as int)
        &&& after.place() == x.place
        &&& after.reports() == self.reports() + x.reports
        &&& after.consumed() == self.consumed() + x.taken
        &&& after.source() == self.source()
    }

    /// What came of this scanner by a rule has come from where it was.
    pub proof fn lemma_went_follows(&self, after: &Scanner, x: Scanned)
        requires
            self.went(after, x),
        ensures
            after.follows(self),
    {
        assert((self.reports() + x.reports).take(self.reports().len() as int) =~= self.reports());
    }

    /// One rule after the other.
    pub proof fn lemma_went_then(&self, between: &Scanner, after: &Scanner, x: Scanned, y: Scanned)
        requires
            self.went(between, x),
            between.went(after, y),
        ensures
            self.went(after, then(x, y)),
    {
        assert(self.rest().skip(x.taken as int).skip(y.taken as int) =~= self.rest().skip((x.taken + y.taken) as int));
        assert(after.reports() =~= self.reports() + (x.reports + y.reports));
    }

    /// The scanner `after` is where this scanner was.
    pub open spec fn same(&self, after: &Scanner) -> bool {
        &&& after.wf()
        &&& after.rest() == self.rest()
        &&& after.place() == self.place()
        &&& after.reports() == self.reports()
        &&& after.consumed() == self.consumed()
        &&& after.source() == self.source()
    }
}

/// A character that ends no line.
pub struct InLine;

impl CharPredicate for InLine {
    open spec fn holds(&self, x: char) -> bool {
        !(x == '\r' || x == '\n' || x == '\x0C')
    }

    fn check(&self, x: char) -> (r: bool) {
        !(x == '\r' || x == '\n' || x == '\x0C')
    }
}

/// The length of the line break that `s` begins with: a return and a line
/// feed, or one of return, line feed and form feed; 0 if it begins with
/// none.
pub open spec fn newline_len(s: Seq<char>) -> nat {
    if s.len() >= 2 && s[0] == '\r' && s[1] == '\n' {
        2
    } else if s.len() >= 1 && (s[0] == '\r' || s[0] == '\n' || s[0] == '\x0C') {
        1
    } else {
        0
    }
}

/// One character of white space: a line break, after which the next line
/// begins; a tab, which leads to the next tab stop; or a vertical tab, a
/// space, or other white space.
pub open spec fn whitechar(s: Seq<char>, from: Location) -> Option<Scanned> {
    let n = newline_len(s);
    if n > 0 {
        Some(broke(s, from, n))
    } else if s.len() > 0 && s[0] == '\t' {
        Some(Scanned { taken: 1, place: from.stepped(1).tabbed(), reports: invalid_reports(s, from, 1) })
    } else if s.len() > 0 && (s[0] == '\x0B' || s[0] == ' ' || unicode_whitespace(s[0])) {
        Some(read(s, from, 1))
    } else {
        None
    }
}

/// A line comment: two dashes or more, not followed by a symbol, and the
/// rest of the line with its line break.
pub open spec fn comment(s: Seq<char>, from: Location) -> Option<Scanned> {
    if s.len() >= 2 && s[0] == '-' && s[1] == '-' {
        let d = 2 + run_length('-', s.skip(2));
        if d < s.len() && !unicode_symbol(s[d as int]) {
            let e = d + run_length(InLine, s.skip(d as int));
            let n = newline_len(s.skip(e as int));
            if n > 0 {
                Some(then(read(s, from, e), broke(s.skip(e as int), from.stepped(e), n)))
            } else {
                None
            }
        } else {
            None
        }
    } else {
        None
    }
}

/// Where a block comment ends that is `depth` deep at place `i`, with
/// `last` the character before; and how deep it is there: 0 if the comment
/// was closed, more if the source ended first.
pub open spec fn ncomment_end(s: Seq<char>, i: nat, last: char, depth: nat) -> (nat, nat)
    decreases s.len() - i,
{
    if i >= s.len() {
        (i, depth)
    } else {
        let x = s[i as int];
        if last == '-' && x == '}' {
            if depth <= 1 {
                (i + 1, 0)
            } else {
                ncomment_end(s, i + 1, x, (depth - 1) as nat)
            }
        } else if last == '{' && x == '-' {
            ncomment_end(s, i + 1, '\0', depth + 1)
        } else {
            ncomment_end(s, i + 1, x, depth)
        }
    }
}

/// The diagnostic that a block comment from `begin` was not closed when
/// the source ended at `end`.
pub open spec fn open_comment(begin: Location, end: Location) -> Diagnostic {
    Diagnostic {
        location: end,
        range: Some(Range { begin, end }),
        message: DiagnosticMessage::Error(Error::IncompleteLexeme(LexemeType::Whitespace)),
    }
}

/// A block comment: from `{-` to the `-}` that closes it, block comments
/// within included; to the end of the source, with a report, if none does.
pub open spec fn ncomment(s: Seq<char>, from: Location) -> Option<Scanned> {
    if s.len() >= 2 && s[0] == '{' && s[1] == '-' {
        let (end, depth) = ncomment_end(s, 2, '\0', 1);
        let r = read(s, from, end);
        if depth == 0 {
            Some(r)
        } else {
            Some(Scanned { taken: end, place: r.place, reports: r.reports.push(open_comment(from, r.place)) })
        }
    } else {
        None
    }
}

/// A piece of white space: a character of white space, a line comment, or
/// a block comment.
pub open spec fn whitestuff(s: Seq<char>, from: Location) -> Option<Scanned> {
    if whitechar(s, from) is Some {
        whitechar(s, from)
    } else if comment(s, from) is Some {
        comment(s, from)
    } else {
        ncomment(s, from)
    }
}

/// All the white space that `s` begins with.
pub open spec fn white_run(s: Seq<char>, from: Location) -> Scanned
    decreases s.len(),
{
    match whitestuff(s, from) {
        Some(x) => if 0 < x.taken <= s.len() {
            then(x, white_run(s.skip(x.taken as int), x.place))
        } else {
            stayed(from)
        },
        None => stayed(from),
    }
}

/// A block comment ends within the source.
pub proof fn lemma_ncomment_end(s: Seq<char>, i: nat, last: char, depth: nat)
    requires
        i <= s.len(),
    ensures
        i <= ncomment_end(s, i, last, depth).0 <= s.len(),
    decreases s.len() - i,
{
    if i < s.len() {
        let x = s[i as int];
        if last == '-' && x == '}' {
            if depth > 1 {
                lemma_ncomment_end(s, i + 1, x, (depth - 1) as nat);
            }
        } else if last == '{' && x == '-' {
            lemma_ncomment_end(s, i + 1, '\0', depth + 1);
        } else {
            lemma_ncomment_end(s, i + 1, x, depth);
        }
    }
}

impl Scanner {
    /// The length of the run of characters of the class `p` that begins
    /// `at` places on.
    pub fn count_run<P: CharPredicate>(&self, p: &P, at: usize) -> (n: usize)
        requires
            self.wf(),
            at <= self.rest().len(),
        ensures
            n == run_length(*p, self.rest().skip(at as int)),
            at + n <= self.rest().len(),
    {
        let total = self.remaining();
        let mut n: usize = 0;
        let ghost s = self.rest();
        while at + n < total && p.check(self.peek_at(at + n).unwrap())
            invariant
                self.wf(),
                s == self.rest(),
                total == s.len(),
                at + n <= total,
                run_length(*p, s.skip(at as int)) == n + run_length(*p, s.skip(at + n)),
            decreases total - n,
        {
            proof {
                assert(s.skip(at + n).drop_first() =~= s.skip(at + n + 1));
            }
            n += 1;
        }
        n
    }

    /// The length of the line break that begins `at` places on.
    pub fn newline_width(&self, at: usize) -> (n: usize)
        requires
            self.wf(),
            at <= self.rest().len(),
        ensures
            n == newline_len(self.rest().skip(at as int)),
            at + n <= self.rest().len(),
    {
        let total = self.remaining();
        if at >= total {
            return 0;
        }
        let c = self.peek_at(at).unwrap();
        if c == '\r' && at + 1 < total && self.peek_at(at + 1).unwrap() == '\n' {
            2
        } else if c == '\r' || c == '\n' || c == '\x0C' {
            1
        } else {
            0
        }
    }

    /// Reads one character of white space, if one is next.
    pub fn whitechar(&mut self) -> (r: Option<()>)
        requires
            old(self).wf(),
        ensures
            match whitechar(old(self).rest(), old(self).place()) {
                Some(x) => r is Some && old(self).went(final(self), x),
                None => r is None && old(self).same(final(self)),
            },
    {
        let n = self.newline_width(0);
        if n > 0 {
            self.break_line(n);
            return Some(());
        }
        match self.peek() {
            Some(c) => {
                if c == '\t' {
                    self.take_tab();
                    Some(())
                } else if c == '\x0B' || c == ' ' || Unicode::White.check(c) {
                    self.advance(1);
                    Some(())
                } else {
                    None
                }
            },
            None => None,
        }
    }

    /// Reads a line comment, if one is next.
    pub fn comment(&mut self) -> (r: Option<()>)
        requires
            old(self).wf(),
        ensures
            match comment(old(self).rest(), old(self).place()) {
                Some(x) => r is Some && old(self).went(final(self), x),
                None => r is None && old(self).same(final(self)),
            },
    {
        let total = self.remaining();
        if !(total >= 2 && self.peek_at(0).unwrap() == '-' && self.peek_at(1).unwrap() == '-') {
            return None;
        }
        let d = 2 + self.count_run(&'-', 2);
        if d >= total {
            return None;
        }
        if Unicode::Symbol.check(self.peek_at(d).unwrap()) {
            return None;
        }
        let e = d + self.count_run(&InLine, d);
        let n = self.newline_width(e);
        if n == 0 {
            return None;
        }
        self.advance(e);
        self.break_line(n);
        proof {
            let s = old(self).rest();
            let from = old(self).place();
            assert(s.skip(e as int).skip(n as int) =~= s.skip(e + n));
            let x = then(read(s, from, e as nat), broke(s.skip(e as int), from.stepped(e as nat), n as nat));
            assert(self.reports() =~= old(self).reports() + x.reports);
        }
        Some(())
    }

    /// Reads a block comment, if one is next.
    pub fn ncomment(&mut self) -> (r: Option<()>)
        requires
            old(self).wf(),
        ensures
            match ncomment(old(self).rest(), old(self).place()) {
                Some(x) => r is Some && old(self).went(final(self), x),
                None => r is None && old(self).same(final(self)),
            },
    {
        let total = self.remaining();
        if !(total >= 2 && self.peek_at(0).unwrap() == '{' && self.peek_at(1).unwrap() == '-') {
            return None;
        }
        let begin = self.location();
        let ghost s = self.rest();
        let mut i: usize = 2;
        let mut last: char = '\0';
        let mut depth: usize = 1;
        while i < total && depth > 0
            invariant
                self.wf(),
                s == self.rest(),
                total == s.len(),
                2 <= i <= total,
                depth <= i,
                depth > 0 ==> ncomment_end(s, 2, '\0', 1) == ncomment_end(s, i as nat, last, depth as nat),
                depth == 0 ==> ncomment_end(s, 2, '\0', 1) == (i as nat, 0nat),
            decreases total - i,
        {
            let x = self.peek_at(i).unwrap();
            if last == '-' && x == '}' {
                last = x;
                depth -= 1;
            } else if last == '{' && x == '-' {
                last = '\0';
                depth += 1;
            } else {
                last = x;
            }
            i += 1;
        }
        self.advance(i);
        if depth != 0 {
            let end = self.location();
            let d = Diagnostic::new(end, DiagnosticMessage::Error(Error::IncompleteLexeme(LexemeType::Whitespace)));
            self.report(d.within(begin, end));
        }
        Some(())
    }

    /// Reads a piece of white space, if one is next.
    pub fn whitestuff(&mut self) -> (r: ScanResult<()>)
        requires
            old(self).wf(),
        ensures
            match whitestuff(old(self).rest(), old(self).place()) {
                Some(x) => r is Success && old(self).went(final(self), x),
                None => r is RetryLater && old(self).same(final(self)),
            },
    {
        if self.whitechar().is_some() {
            return Result3::Success(());
        }
        if self.comment().is_some() {
            return Result3::Success(());
        }
        if self.ncomment().is_some() {
            return Result3::Success(());
        }
        Scanner::keep_trying()
    }

    /// Reads all the white space that is next; fails, for another rule to
    /// be tried, if there is none.
    pub fn whitespace(&mut self) -> (r: ScanResult<()>)
        requires
            old(self).wf(),
        ensures
            old(self).went(final(self), white_run(old(self).rest(), old(self).place())),
            match whitestuff(old(self).rest(), old(self).place()) {
                Some(_) => r is Success,
                None => r is RetryLater,
            },
    {
        let mut found = false;
        let ghost mut done = stayed(self.place());
        proof {
            assert(self.rest() =~= old(self).rest().skip(0));
            assert(self.reports() =~= old(self).reports() + done.reports);
        }
        loop
            invariant
                self.wf(),
                old(self).went(self, done),
                white_run(old(self).rest(), old(self).place()) == then(done, white_run(self.rest(), self.place())),
                found ==> whitestuff(old(self).rest(), old(self).place()) is Some,
                !found ==> done == stayed(old(self).place()) && self.rest() == old(self).rest(),
            ensures
                old(self).went(self, white_run(old(self).rest(), old(self).place())),
                found == (whitestuff(old(self).rest(), old(self).place()) is Some),
            decreases self.rest().len(),
        {
            let ghost before = *self;
            let ghost so_far = done;
            match self.whitestuff() {
                Result3::Success(_) => {
                    proof {
                        let x = whitestuff(before.rest(), before.place())->Some_0;
                        lemma_whitestuff_takes(before.rest(), before.place());
                        done = then(so_far, x);
                        assert(old(self).rest().skip(so_far.taken as int).skip(x.taken as int) =~= old(
                            self,
                        ).rest().skip(done.taken as int));
                        assert(self.reports() =~= old(self).reports() + done.reports);
                        let rest = white_run(self.rest(), self.place());
                        assert(then(so_far, then(x, rest)).reports =~= then(done, rest).reports);
                    }
                    found = true;
                },
                _ => {
                    proof {
                        let rest = white_run(self.rest(), self.place());
                        assert(rest == stayed(self.place()));
                        assert(then(done, rest).reports =~= done.reports);
                    }
                    break ;
                },
            }
        }
        if found {
            Result3::Success(())
        } else {
            Scanner::keep_trying()
        }
    }
}

/// A piece of white space takes a character at least, and no more than
/// there are.
pub proof fn lemma_whitestuff_takes(s: Seq<char>, from: Location)
    requires
        whitestuff(s, from) is Some,
    ensures
        0 < whitestuff(s, from)->Some_0.taken <= s.len(),
{
    if whitechar(s, from) is Some {
    } else if comment(s, from) is Some {
        let d = 2 + run_length('-', s.skip(2));
        let e = d + run_length(InLine, s.skip(d as int));
        crate::buffer::lemma_run_bound(InLine, s.skip(d as int));
    } else {
        lemma_ncomment_end(s, 2, '\0', 1);
    }
}

} // verus!
