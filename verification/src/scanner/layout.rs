//! The layout rule of Haskell: the lexemes of a source are enriched with the
//! indentation of the first lexeme of each line and of each block, so that
//! braces and semicolons can be put in where the source leaves them out.

use vstd::prelude::*;
use crate::lexeme::{Lexeme, Token};
use crate::scanner::char_string::char_or_string;
use crate::scanner::identifier::id_or_sym;
use crate::scanner::numeric::numeric_literal;
use crate::scanner::special::special;
use crate::scanner::whitespace::{read, stayed, then, white_run, Scanned};
use crate::scanner::{LexError, Location, Range, ScanResult, Scanner, MAX_INPUT};
use crate::text::{decimal, push_char, push_decimal, push_str};
use crate::utils::Result3;

verus! {

/// A lexeme, or a mark of the layout rule.
#[derive(Debug, Clone, PartialEq, Eq)]
pub enum EnrichedLexeme {
    /// `{n}`: a block begins here whose lexemes are indented by `n`.
    CurlyN(usize),
    /// `<n>`: the next lexeme is the first of its line, indented by `n`.
    AngleN(usize),
    /// A lexeme, with its place in the source.
    Normal(Lexeme, Range),
}

/// A lexeme of the source, or a brace or semicolon that the layout rule put
/// in.
#[derive(Debug, Clone, PartialEq, Eq)]
pub enum AugmentedLexeme {
    /// A lexeme of the source, with its place.
    Real(Lexeme, Range),
    /// A `{` that the layout rule put in.
    PhantomOpenCurlyBracket,
    /// A `}` that the layout rule put in.
    PhantomCloseCurlyBracket,
    /// A `;` that the layout rule put in.
    PhantomSemicolon,
}

/// The marks that come before lexeme `i`: `{n}` before the first lexeme of
/// a module unless that is `{` or `module`, and after `let`, `where`, `do`
/// and `of` unless `{` follows; otherwise `<n>` if the lexeme is the first
/// of its line. `n` is the column of the lexeme.
pub open spec fn marks_before(ls: Seq<(Lexeme, Range)>, i: int) -> Seq<EnrichedLexeme> {
    let column = ls[i].1.begin.column;
    if i == 0 {
        if ls[0].0 is OpenCurlyBracket || ls[0].0.spec_is_module() {
            Seq::empty()
        } else {
            seq![EnrichedLexeme::CurlyN(column)]
        }
    } else if ls[i - 1].0.spec_opens_block() {
        if ls[i].0 is OpenCurlyBracket {
            Seq::empty()
        } else {
            seq![EnrichedLexeme::CurlyN(column)]
        }
    } else if ls[i].1.begin.line > ls[i - 1].1.end.line {
        seq![EnrichedLexeme::AngleN(column)]
    } else {
        Seq::empty()
    }
}

/// The first `n` lexemes, each with the marks before it.
pub open spec fn enriched_upto(ls: Seq<(Lexeme, Range)>, n: nat) -> Seq<EnrichedLexeme>
    decreases n,
{
    if n == 0 || n > ls.len() {
        Seq::empty()
    } else {
        enriched_upto(ls, (n - 1) as nat) + marks_before(ls, n - 1) + seq![
            EnrichedLexeme::Normal(ls[n - 1].0, ls[n - 1].1),
        ]
    }
}

/// The enriched lexemes of a source: every lexeme with the marks before
/// it, and `{0}` at the end if the last lexeme is `let`, `where`, `do` or
/// `of`.
pub open spec fn enriched(ls: Seq<(Lexeme, Range)>) -> Seq<EnrichedLexeme> {
    enriched_upto(ls, ls.len()) + if ls.len() > 0 && ls.last().0.spec_opens_block() {
        seq![EnrichedLexeme::CurlyN(0)]
    } else {
        Seq::empty()
    }
}

/// Enriches the lexemes of a source with the marks of the layout rule.
pub fn enrich(lexemes: Vec<(Lexeme, Range)>) -> (out: Vec<EnrichedLexeme>)
    ensures
        out@ == enriched(lexemes@),
{
    let ghost ls = lexemes@;
    let mut out: Vec<EnrichedLexeme> = Vec::new();
    let mut first = true;
    let mut opened = false;
    let mut last_line: usize = 0;
    let mut count: Ghost<nat> = Ghost(0);
    for pair in it: lexemes
        invariant
            it.index() == count@,
            count@ <= ls.len(),
            it.seq() == ls,
            out@ == enriched_upto(ls, count@),
            first == (count@ == 0),
            count@ > 0 ==> opened == ls[count@ - 1].0.spec_opens_block() && last_line == ls[count@ - 1].1.end.line,
            !first || !opened,
    {
        let (lexeme, range) = pair;
        let ghost i = count@ as int;
        let ghost before = out@;
        let column = range.begin.column;
        if first {
            if !(lexeme.is_open_curly() || lexeme.is_module()) {
                out.push(EnrichedLexeme::CurlyN(column));
            }
        } else if opened {
            if !lexeme.is_open_curly() {
                out.push(EnrichedLexeme::CurlyN(column));
            }
        } else if range.begin.line > last_line {
            out.push(EnrichedLexeme::AngleN(column));
        }
        proof {
            assert(out@ =~= before + marks_before(ls, i));
        }
        first = false;
        opened = lexeme.opens_block();
        last_line = range.end.line;
        out.push(EnrichedLexeme::Normal(lexeme, range));
        proof {
            count@ = count@ + 1;
            assert(out@ =~= enriched_upto(ls, count@));
        }
    }
    if opened {
        out.push(EnrichedLexeme::CurlyN(0));
    }
    proof {
        assert(out@ =~= enriched(ls));
    }
    out
}


/// The lexeme that `s` begins with, and what reading it does: the first of
/// a numeric literal, an identifier or operator, a character or string
/// literal and a special character that is there.
pub open spec fn next_lexeme(s: Seq<char>, from: Location) -> Option<(Token, Scanned)> {
    if numeric_literal(s, from) is Some {
        numeric_literal(s, from)
    } else if id_or_sym(s) is Some {
        Some((id_or_sym(s)->Some_0.0, read(s, from, id_or_sym(s)->Some_0.1)))
    } else if char_or_string(s, from) is Some {
        char_or_string(s, from)
    } else {
        match special(s) {
            Some((t, n)) => Some((t, read(s, from, n))),
            None => None,
        }
    }
}

impl Scanner {
    /// Reads the next lexeme; fails, for another rule to be tried, if none
    /// is next.
    pub fn next_lexeme(&mut self) -> (r: ScanResult<Lexeme>)
        requires
            old(self).wf(),
        ensures
            match next_lexeme(old(self).rest(), old(self).place()) {
                Some((t, x)) => r matches Result3::Success(l) && l@ == t && old(self).went(final(self), x),
                None => r is RetryLater && old(self).same(final(self)),
            },
    {
        match self.numeric_literal() {
            Result3::Success(l) => {
                return Result3::Success(l);
            },
            _ => {},
        }
        match self.id_or_sym() {
            Result3::Success(l) => {
                return Result3::Success(l);
            },
            _ => {},
        }
        match self.char_or_string() {
            Result3::Success(l) => {
                return Result3::Success(l);
            },
            _ => {},
        }
        self.special()
    }
}

/// The lexeme that comes after the white space that `s` begins with: the
/// lexeme, what reading the white space does, and what reading the lexeme
/// does.
#[verifier::opaque]
pub open spec fn spaced_lexeme(s: Seq<char>, from: Location) -> Option<(Token, Scanned, Scanned)> {
    let w = white_run(s, from);
    match next_lexeme(s.skip(w.taken as int), w.place) {
        Some((t, x)) => Some((t, w, x)),
        None => None,
    }
}

/// The lexemes of a source, one after the other: the scanner, and the
/// error at which it stopped, if any.
pub struct RawLexemeIterator {
    scanner: Scanner,
    error: Option<LexError>,
}

impl RawLexemeIterator {
    /// The scanner of the iterator.
    pub closed spec fn scanner(&self) -> Scanner {
        self.scanner
    }

    /// The error at which the iterator has stopped, if any.
    pub closed spec fn error(&self) -> Option<LexError> {
        self.error
    }

    /// Whether the iterator has stopped at an error.
    pub open spec fn failed(&self) -> bool {
        self.error() is Some
    }

    /// The invariant of the iterator.
    pub open spec fn wf(&self) -> bool {
        self.scanner().wf()
    }

    /// The lexemes of `input`.
    pub fn new(input: Vec<char>) -> (r: Self)
        requires
            input@.len() <= MAX_INPUT,
        ensures
            r.wf(),
            !r.failed(),
            r.scanner().rest() == input@,
            r.scanner().place() == (Location { line: 1, column: 1, offset: 0 }),
            r.scanner().reports().len() == 0,
            r.scanner().source() == input@,
            r.scanner().consumed() == 0,
    {
        RawLexemeIterator { scanner: Scanner::new(input), error: None }
    }

    /// The lexemes that `scanner` has still to read.
    pub fn from_scanner(scanner: Scanner) -> (r: Self)
        requires
            scanner.wf(),
        ensures
            r.wf(),
            !r.failed(),
            r.scanner() == scanner,
    {
        RawLexemeIterator { scanner, error: None }
    }

    /// Hands out the scanner, and the error at which the iterator stopped,
    /// if any.
    pub fn into_scanner(self) -> (r: (Option<LexError>, Scanner))
        ensures
            r.0 == self.error(),
            r.1 == self.scanner(),
    {
        (self.error, self.scanner)
    }

    /// The next lexeme, after the white space before it, with the place
    /// where it begins; none at the end of the source, at what is no
    /// lexeme, and after an error.
    pub fn next_placed(&mut self) -> (r: Option<(Lexeme, Location)>)
        requires
            old(self).wf(),
        ensures
            final(self).wf(),
            old(self).failed() ==> r is None && final(self).scanner() == old(self).scanner() && final(self).failed(),
            !old(self).failed() ==> !final(self).failed() && match spaced_lexeme(
                old(self).scanner().rest(),
                old(self).scanner().place(),
            ) {
                Some((t, w, x)) => r matches Some((l, begin)) && l@ == t && begin == w.place && old(
                    self,
                ).scanner().went(&final(self).scanner(), then(w, x)),
                None => r is None && old(self).scanner().went(
                    &final(self).scanner(),
                    white_run(old(self).scanner().rest(), old(self).scanner().place()),
                ),
            },
    {
        proof {
            reveal(spaced_lexeme);
        }
        if self.error.is_some() {
            return None;
        }
        let ghost origin = self.scanner;
        let _ = self.scanner.whitespace();
        let ghost mid = self.scanner;
        let begin = self.scanner.location();
        match self.scanner.next_lexeme() {
            Result3::Success(l) => {
                proof {
                    let w = white_run(origin.rest(), origin.place());
                    let x = next_lexeme(mid.rest(), mid.place())->Some_0.1;
                    origin.lemma_went_then(&mid, &self.scanner, w, x);
                }
                Some((l, begin))
            },
            Result3::RetryLater(_) => None,
            Result3::FailFast(e) => {
                self.error = Some(e);
                None
            },
        }
    }

    /// The next lexeme.
    pub fn next(&mut self) -> (r: Option<Lexeme>)
        requires
            old(self).wf(),
        ensures
            final(self).wf(),
            old(self).failed() ==> r is None && final(self).scanner() == old(self).scanner() && final(self).failed(),
            !old(self).failed() ==> !final(self).failed() && match spaced_lexeme(
                old(self).scanner().rest(),
                old(self).scanner().place(),
            ) {
                Some((t, w, x)) => r matches Some(l) && l@ == t && old(self).scanner().went(
                    &final(self).scanner(),
                    then(w, x),
                ),
                None => r is None && old(self).scanner().went(
                    &final(self).scanner(),
                    white_run(old(self).scanner().rest(), old(self).scanner().place()),
                ),
            },
    {
        match self.next_placed() {
            Some((l, _)) => Some(l),
            None => None,
        }
    }
}

/// The lexemes of a source with the stretch of the source that each takes.
pub struct FatLexemeIterator {
    iterator: RawLexemeIterator,
    location: Location,
}

impl FatLexemeIterator {
    /// The iterator of the lexemes themselves.
    pub closed spec fn raw(&self) -> RawLexemeIterator {
        self.iterator
    }

    /// The invariant of the iterator.
    pub open spec fn wf(&self) -> bool {
        self.raw().wf()
    }

    /// The lexemes of `input`, with their places.
    pub fn new(input: Vec<char>) -> (r: Self)
        requires
            input@.len() <= MAX_INPUT,
        ensures
            r.wf(),
            !r.raw().failed(),
            r.raw().scanner().rest() == input@,
            r.raw().scanner().place() == (Location { line: 1, column: 1, offset: 0 }),
            r.raw().scanner().reports().len() == 0,
            r.raw().scanner().source() == input@,
            r.raw().scanner().consumed() == 0,
    {
        FatLexemeIterator::from_raw(RawLexemeIterator::new(input))
    }

    /// The lexemes of `iterator`, with their places.
    pub fn from_raw(iterator: RawLexemeIterator) -> (r: Self)
        requires
            iterator.wf(),
        ensures
            r.wf(),
            r.raw() == iterator,
    {
        let location = iterator.scanner.location();
        FatLexemeIterator { iterator, location }
    }

    /// Hands out the scanner, and the error at which the iterator stopped,
    /// if any.
    pub fn into_scanner(self) -> (r: (Option<LexError>, Scanner))
        ensures
            r.0 == self.raw().error(),
            r.1 == self.raw().scanner(),
    {
        self.iterator.into_scanner()
    }

    /// The next lexeme, with the stretch from where it begins to where it
    /// ends.
    pub fn next(&mut self) -> (r: Option<(Lexeme, Range)>)
        requires
            old(self).wf(),
        ensures
            final(self).wf(),
            old(self).raw().failed() ==> r is None && final(self).raw().scanner() == old(self).raw().scanner()
                && final(self).raw().failed(),
            !old(self).raw().failed() ==> !final(self).raw().failed() && match spaced_lexeme(
                old(self).raw().scanner().rest(),
                old(self).raw().scanner().place(),
            ) {
                Some((t, w, x)) => r matches Some((l, range)) && l@ == t && range == (Range {
                    begin: w.place,
                    end: x.place,
                }) && old(self).raw().scanner().went(&final(self).raw().scanner(), then(w, x)),
                None => r is None && old(self).raw().scanner().went(
                    &final(self).raw().scanner(),
                    white_run(old(self).raw().scanner().rest(), old(self).raw().scanner().place()),
                ),
            },
    {
        match self.iterator.next_placed() {
            Some((l, begin)) => {
                self.location = begin;
                let end = self.iterator.scanner.location();
                Some((l, Range { begin, end }))
            },
            None => None,
        }
    }
}


/// The lexemes of the source `s`, read from `from` on, each with the
/// stretch that it takes: as far as there are lexemes with white space
/// between.
pub open spec fn fat_lexemes(s: Seq<char>, from: Location) -> Seq<(Token, Range)>
    decreases s.len(),
{
    match spaced_lexeme(s, from) {
        Some((t, w, x)) => if 0 < w.taken + x.taken <= s.len() {
            seq![(t, Range { begin: w.place, end: x.place })] + fat_lexemes(
                s.skip((w.taken + x.taken) as int),
                x.place,
            )
        } else {
            seq![(t, Range { begin: w.place, end: x.place })]
        },
        None => Seq::empty(),
    }
}

/// Every lexeme takes a character at least.
pub proof fn lemma_lexeme_takes(s: Seq<char>, from: Location)
    requires
        next_lexeme(s, from) is Some,
    ensures
        next_lexeme(s, from)->Some_0.1.taken > 0,
{
    if numeric_literal(s, from) is Some {
    } else if id_or_sym(s) is Some {
        crate::scanner::identifier::lemma_mod_len(s);
    } else if char_or_string(s, from) is Some {
    } else {
    }
}

/// A lexeme and the white space before it take a character at least.
pub proof fn lemma_spaced_takes(s: Seq<char>, from: Location)
    requires
        spaced_lexeme(s, from) is Some,
    ensures
        spaced_lexeme(s, from)->Some_0.1.taken + spaced_lexeme(s, from)->Some_0.2.taken > 0,
{
    reveal(spaced_lexeme);
    let w = white_run(s, from);
    lemma_lexeme_takes(s.skip(w.taken as int), w.place);
}

/// What lexemes with their places say.
pub open spec fn fat_tokens(ls: Seq<(Lexeme, Range)>) -> Seq<(Token, Range)> {
    Seq::new(ls.len(), |i: int| (ls[i].0@, ls[i].1))
}

/// What reading all the lexemes of the source `s` from `from` on does:
/// the white space and the lexemes as far as there are lexemes, and the
/// white space behind the last.
pub open spec fn lexed(s: Seq<char>, from: Location) -> Scanned
    decreases s.len(),
{
    match spaced_lexeme(s, from) {
        Some((t, w, x)) => if 0 < w.taken + x.taken <= s.len() {
            then(then(w, x), lexed(s.skip((w.taken + x.taken) as int), x.place))
        } else {
            then(w, x)
        },
        None => white_run(s, from),
    }
}

/// Reads the lexemes of a source, each with the stretch that it takes, and
/// hands out the scanner as it is at the end: it has read the lexemes and
/// the white space around them, and has reported what they gave rise to.
pub fn lex(input: Vec<char>) -> (r: (Vec<(Lexeme, Range)>, Scanner))
    requires
        input@.len() <= MAX_INPUT,
    ensures
        fat_tokens(r.0@) == fat_lexemes(input@, Location { line: 1, column: 1, offset: 0 }),
        r.1.wf(),
        r.1.source() == input@,
        ({
            let all = lexed(input@, Location { line: 1, column: 1, offset: 0 });
            &&& all.taken <= input@.len()
            &&& r.1.consumed() == all.taken
            &&& r.1.rest() == input@.skip(all.taken as int)
            &&& r.1.place() == all.place
            &&& r.1.reports() == all.reports
        }),
{
    let mut it = FatLexemeIterator::new(input);
    let mut out: Vec<(Lexeme, Range)> = Vec::new();
    let ghost start = Location { line: 1, column: 1, offset: 0 };
    let ghost mut done = stayed(start);
    proof {
        assert(fat_tokens(out@) =~= Seq::<(Token, Range)>::empty());
        assert(Seq::<(Token, Range)>::empty() + fat_lexemes(input@, start) =~= fat_lexemes(input@, start));
        assert(input@.skip(0) =~= input@);
        let rest = lexed(input@, start);
        assert(then(done, rest).reports =~= rest.reports);
        assert(it.raw().scanner().reports() =~= done.reports);
    }
    loop
        invariant_except_break
            !it.raw().failed(),
            fat_lexemes(input@, start) == fat_tokens(out@) + fat_lexemes(
                it.raw().scanner().rest(),
                it.raw().scanner().place(),
            ),
            lexed(input@, start) == then(done, lexed(it.raw().scanner().rest(), it.raw().scanner().place())),
        invariant
            it.wf(),
            it.raw().scanner().source() == input@,
            done.taken <= input@.len(),
            it.raw().scanner().consumed() == done.taken,
            it.raw().scanner().rest() == input@.skip(done.taken as int),
            it.raw().scanner().place() == done.place,
            it.raw().scanner().reports() == done.reports,
        ensures
            fat_lexemes(input@, start) == fat_tokens(out@),
            lexed(input@, start) == done,
        decreases it.raw().scanner().rest().len(),
    {
        let ghost before = it.raw().scanner();
        let ghost so_far = out@;
        let ghost done_before = done;
        match it.next() {
            Some(pair) => {
                out.push(pair);
                proof {
                    let (t, w, x) = spaced_lexeme(before.rest(), before.place())->Some_0;
                    let rest = fat_lexemes(before.rest(), before.place());
                    lemma_spaced_takes(before.rest(), before.place());
                    assert(fat_tokens(out@) =~= fat_tokens(so_far) + seq![(t, Range { begin: w.place, end: x.place })]);
                    let after = fat_lexemes(it.raw().scanner().rest(), it.raw().scanner().place());
                    assert(fat_tokens(so_far) + (seq![(t, Range { begin: w.place, end: x.place })] + after)
                        =~= fat_tokens(out@) + after);
                    let step = then(w, x);
                    let later = lexed(it.raw().scanner().rest(), it.raw().scanner().place());
                    done = then(done_before, step);
                    assert(then(done_before, then(step, later)).reports =~= then(done, later).reports);
                    assert(input@.skip(done_before.taken as int).skip(step.taken as int) =~= input@.skip(
                        done.taken as int,
                    ));
                }
            },
            None => {
                proof {
                    assert(fat_tokens(out@) + Seq::<(Token, Range)>::empty() =~= fat_tokens(out@));
                    let last = white_run(before.rest(), before.place());
                    done = then(done_before, last);
                    assert(input@.skip(done_before.taken as int).skip(last.taken as int) =~= input@.skip(
                        done.taken as int,
                    ));
                }
                break ;
            },
        }
    }
    let (_, scanner) = it.into_scanner();
    (out, scanner)
}


/// A closing brace of the source that closes a block which the layout rule
/// opened, or the end of the source within a block that the source opened
/// with a brace.
#[derive(Debug, Copy, Clone, PartialEq, Eq, Structural)]
pub struct MismatchedBrackets;

/// What the layout rule makes of `held` and then of the enriched lexemes
/// from place `i` on, within the blocks with the indentations `ms`, the
/// innermost last. `held` is the indentation of a first lexeme of a line
/// that is still to be dealt with; an indentation of 0 stands for a block
/// that the source opened with a brace.
///
/// A first lexeme of a line gets a `;` before it if it is indented as the
/// block is, and closes the block if it is indented less. The mark of a
/// new block opens it if the block is indented more than the block around
/// it; otherwise it opens and closes an empty block, and the lexeme is
/// dealt with as the first of a line. A brace of the source opens or
/// closes a block of its own. At the end of the source every block that
/// the layout rule opened is closed.
pub open spec fn laid_out(
    ts: Seq<EnrichedLexeme>,
    i: nat,
    held: Option<usize>,
    ms: Seq<usize>,
) -> Option<Seq<AugmentedLexeme>>
    decreases ts.len() - i, if held is Some {
        1nat
    } else {
        0nat
    }, ms.len(),
{
    match held {
        Some(n) => if ms.len() > 0 && ms.last() == n {
            after(seq![AugmentedLexeme::PhantomSemicolon], laid_out(ts, i, None, ms))
        } else if ms.len() > 0 && n < ms.last() {
            after(seq![AugmentedLexeme::PhantomCloseCurlyBracket], laid_out(ts, i, held, ms.drop_last()))
        } else {
            laid_out(ts, i, None, ms)
        },
        None => if i >= ts.len() {
            if ms.len() == 0 {
                Some(Seq::empty())
            } else if ms.last() == 0 {
                None
            } else {
                after(seq![AugmentedLexeme::PhantomCloseCurlyBracket], laid_out(ts, i, None, ms.drop_last()))
            }
        } else {
            match ts[i as int] {
                EnrichedLexeme::AngleN(n) => laid_out(ts, i + 1, Some(n), ms),
                EnrichedLexeme::CurlyN(n) => if ms.len() == 0 || n > ms.last() {
                    after(seq![AugmentedLexeme::PhantomOpenCurlyBracket], laid_out(ts, i + 1, None, ms.push(n)))
                } else {
                    after(
                        seq![AugmentedLexeme::PhantomOpenCurlyBracket, AugmentedLexeme::PhantomCloseCurlyBracket],
                        laid_out(ts, i + 1, Some(n), ms),
                    )
                },
                EnrichedLexeme::Normal(l, range) => if l is CloseCurlyBracket && ms.len() > 0 {
                    if ms.last() == 0 {
                        after(seq![AugmentedLexeme::Real(l, range)], laid_out(ts, i + 1, None, ms.drop_last()))
                    } else {
                        None
                    }
                } else if l is OpenCurlyBracket {
                    after(seq![AugmentedLexeme::Real(l, range)], laid_out(ts, i + 1, None, ms.push(0)))
                } else {
                    after(seq![AugmentedLexeme::Real(l, range)], laid_out(ts, i + 1, None, ms))
                },
            }
        },
    }
}

/// `first`, and then `rest`, if there is a `rest`.
pub open spec fn after(first: Seq<AugmentedLexeme>, rest: Option<Seq<AugmentedLexeme>>) -> Option<
    Seq<AugmentedLexeme>,
> {
    match rest {
        Some(r) => Some(first + r),
        None => None,
    }
}

/// Deals with the first lexeme of a line that is indented by `n`: closes
/// the blocks that are indented more, and puts a `;` before the lexeme if
/// the block around it is indented as it is.
fn settle(n: usize, indents: &mut Vec<usize>, out: &mut Vec<AugmentedLexeme>, Ghost(ts): Ghost<Seq<EnrichedLexeme>>, Ghost(i): Ghost<nat>)
    ensures
        after(old(out)@, laid_out(ts, i, Some(n), old(indents)@)) == after(
            final(out)@,
            laid_out(ts, i, None, final(indents)@),
        ),
{
    loop
        invariant_except_break
            after(old(out)@, laid_out(ts, i, Some(n), old(indents)@)) == after(
                out@,
                laid_out(ts, i, Some(n), indents@),
            ),
        ensures
            after(old(out)@, laid_out(ts, i, Some(n), old(indents)@)) == after(
                out@,
                laid_out(ts, i, None, indents@),
            ),
        decreases indents@.len(),
    {
        let ghost before = out@;
        let ghost ms = indents@;
        let m = if indents.len() > 0 {
            Some(indents[indents.len() - 1])
        } else {
            None
        };
        match m {
            Some(m) => {
                if m == n {
                    out.push(AugmentedLexeme::PhantomSemicolon);
                    proof {
                        lemma_after(before, seq![AugmentedLexeme::PhantomSemicolon], laid_out(ts, i, None, ms));
                        assert(out@ =~= before + seq![AugmentedLexeme::PhantomSemicolon]);
                    }
                    break ;
                } else if n < m {
                    let _ = indents.pop();
                    out.push(AugmentedLexeme::PhantomCloseCurlyBracket);
                    proof {
                        lemma_after(
                            before,
                            seq![AugmentedLexeme::PhantomCloseCurlyBracket],
                            laid_out(ts, i, Some(n), ms.drop_last()),
                        );
                        assert(out@ =~= before + seq![AugmentedLexeme::PhantomCloseCurlyBracket]);
                        assert(indents@ =~= ms.drop_last());
                    }
                } else {
                    break ;
                }
            },
            None => {
                break ;
            },
        }
    }
}

/// Something, and then something else and the rest, is both and then the
/// rest.
pub proof fn lemma_after(a: Seq<AugmentedLexeme>, b: Seq<AugmentedLexeme>, rest: Option<Seq<AugmentedLexeme>>)
    ensures
        after(a, after(b, rest)) == after(a + b, rest),
{
    match rest {
        Some(r) => {
            assert(a + (b + r) =~= (a + b) + r);
        },
        None => {},
    }
}

/// Puts in the braces and semicolons that the layout rule asks for.
pub fn augment(lexemes: Vec<EnrichedLexeme>) -> (r: Result<Vec<AugmentedLexeme>, MismatchedBrackets>)
    ensures
        match laid_out(lexemes@, 0, None, Seq::empty()) {
            Some(out) => r matches Ok(v) && v@ == out,
            None => r is Err,
        },
{
    let ghost ts = lexemes@;
    let mut out: Vec<AugmentedLexeme> = Vec::new();
    let mut indents: Vec<usize> = Vec::new();
    let mut count: Ghost<nat> = Ghost(0);
    let ghost whole = laid_out(ts, 0, None, Seq::empty());
    proof {
        assert(indents@ =~= Seq::<usize>::empty());
        match whole {
            Some(w) => {
                assert(out@ + w =~= w);
            },
            None => {},
        }
    }
    for t in it: lexemes
        invariant
            it.index() == count@,
            count@ <= ts.len(),
            it.seq() == ts,
            whole == laid_out(ts, 0, None, Seq::empty()),
            whole == after(out@, laid_out(ts, count@, None, indents@)),
    {
        let ghost before = out@;
        let ghost ms = indents@;
        let ghost i = count@;
        proof {
            count@ = count@ + 1;
        }
        let top = if indents.len() > 0 {
            Some(indents[indents.len() - 1])
        } else {
            None
        };
        match t {
            EnrichedLexeme::AngleN(n) => {
                settle(n, &mut indents, &mut out, Ghost(ts), Ghost(i + 1));
            },
            EnrichedLexeme::CurlyN(n) => {
                let opens = match top {
                    Some(m) => n > m,
                    None => true,
                };
                if opens {
                    indents.push(n);
                    out.push(AugmentedLexeme::PhantomOpenCurlyBracket);
                    proof {
                        lemma_after(
                            before,
                            seq![AugmentedLexeme::PhantomOpenCurlyBracket],
                            laid_out(ts, i + 1, None, ms.push(n)),
                        );
                        assert(out@ =~= before + seq![AugmentedLexeme::PhantomOpenCurlyBracket]);
                    }
                } else {
                    out.push(AugmentedLexeme::PhantomOpenCurlyBracket);
                    out.push(AugmentedLexeme::PhantomCloseCurlyBracket);
                    proof {
                        let both = seq![
                            AugmentedLexeme::PhantomOpenCurlyBracket,
                            AugmentedLexeme::PhantomCloseCurlyBracket,
                        ];
                        lemma_after(before, both, laid_out(ts, i + 1, Some(n), ms));
                        assert(out@ =~= before + both);
                    }
                    settle(n, &mut indents, &mut out, Ghost(ts), Ghost(i + 1));
                }
            },
            EnrichedLexeme::Normal(l, range) => {
                let closes = l.is_close_curly();
                let opens = l.is_open_curly();
                if closes && top.is_some() {
                    if top != Some(0) {
                        return Err(MismatchedBrackets);
                    }
                    let _ = indents.pop();
                    proof {
                        assert(indents@ =~= ms.drop_last());
                    }
                } else if opens {
                    indents.push(0);
                }
                out.push(AugmentedLexeme::Real(l, range));
                proof {
                    lemma_after(
                        before,
                        seq![AugmentedLexeme::Real(l, range)],
                        laid_out(ts, i + 1, None, indents@),
                    );
                    assert(out@ =~= before + seq![AugmentedLexeme::Real(l, range)]);
                }
            },
        }
    }
    proof {
        assert(count@ == ts.len());
    }
    while indents.len() > 0
        invariant
            ts == lexemes@,
            whole == laid_out(ts, 0, None, Seq::empty()),
            whole == after(out@, laid_out(ts, ts.len(), None, indents@)),
        decreases indents@.len(),
    {
        let ghost before = out@;
        let ghost ms = indents@;
        let k = indents.pop().unwrap();
        if k == 0 {
            proof {
                assert(ms.last() == 0);
                assert(laid_out(ts, ts.len(), None, ms) is None);
            }
            return Err(MismatchedBrackets);
        }
        out.push(AugmentedLexeme::PhantomCloseCurlyBracket);
        proof {
            assert(indents@ =~= ms.drop_last());
            lemma_after(
                before,
                seq![AugmentedLexeme::PhantomCloseCurlyBracket],
                laid_out(ts, ts.len(), None, ms.drop_last()),
            );
            assert(out@ =~= before + seq![AugmentedLexeme::PhantomCloseCurlyBracket]);
        }
    }
    proof {
        assert(out@ + Seq::<AugmentedLexeme>::empty() =~= out@);
    }
    Ok(out)
}


impl EnrichedLexeme {
    /// The printed form: `{n}`, `<n>`, or the place of the lexeme, a colon
    /// and the lexeme.
    pub open spec fn text(&self) -> Seq<char> {
        match self {
            EnrichedLexeme::CurlyN(n) => seq!['{'] + decimal(*n as nat) + seq!['}'],
            EnrichedLexeme::AngleN(n) => seq!['<'] + decimal(*n as nat) + seq!['>'],
            EnrichedLexeme::Normal(l, range) => range.text() + ": "@ + l@.text(),
        }
    }

    /// The printed form as a string.
    pub fn to_string(&self) -> (s: String)
        ensures
            s@ == self.text(),
    {
        let mut s = String::new();
        match self {
            EnrichedLexeme::CurlyN(n) => {
                push_char(&mut s, '{');
                push_decimal(&mut s, *n as u64);
                push_char(&mut s, '}');
            },
            EnrichedLexeme::AngleN(n) => {
                push_char(&mut s, '<');
                push_decimal(&mut s, *n as u64);
                push_char(&mut s, '>');
            },
            EnrichedLexeme::Normal(l, range) => {
                let r = range.to_string();
                push_str(&mut s, r.as_str());
                push_str(&mut s, ": ");
                l.write_to(&mut s);
            },
        }
        proof {
            assert(s@ =~= self.text());
        }
        s
    }
}

impl AugmentedLexeme {
    /// The printed form: the place of the lexeme, or `<phantom>` for what
    /// the layout rule put in, a colon and the lexeme.
    pub open spec fn text(&self) -> Seq<char> {
        match self {
            AugmentedLexeme::Real(l, range) => range.text() + ": "@ + l@.text(),
            AugmentedLexeme::PhantomOpenCurlyBracket => "<phantom>: {"@,
            AugmentedLexeme::PhantomCloseCurlyBracket => "<phantom>: }"@,
            AugmentedLexeme::PhantomSemicolon => "<phantom>: ;"@,
        }
    }

    /// The printed form as a string.
    pub fn to_string(&self) -> (s: String)
        ensures
            s@ == self.text(),
    {
        let mut s = String::new();
        match self {
            AugmentedLexeme::Real(l, range) => {
                let r = range.to_string();
                push_str(&mut s, r.as_str());
                push_str(&mut s, ": ");
                l.write_to(&mut s);
            },
            AugmentedLexeme::PhantomOpenCurlyBracket => {
                push_str(&mut s, "<phantom>: {");
            },
            AugmentedLexeme::PhantomCloseCurlyBracket => {
                push_str(&mut s, "<phantom>: }");
            },
            AugmentedLexeme::PhantomSemicolon => {
                push_str(&mut s, "<phantom>: ;");
            },
        }
        proof {
            assert(s@ =~= self.text());
        }
        s
    }
}

/// The items of `v`, the last first.
fn reversed<T>(v: Vec<T>) -> (r: Vec<T>)
    ensures
        r@ == v@.reverse(),
{
    let mut v = v;
    let ghost all = v@;
    let mut r: Vec<T> = Vec::new();
    while v.len() > 0
        invariant
            v@.len() + r@.len() == all.len(),
            v@ == all.take(v@.len() as int),
            forall|k: int| 0 <= k < r@.len() ==> r@[k] == all[all.len() - 1 - k],
        decreases v@.len(),
    {
        let ghost before = v@;
        let x = v.pop().unwrap();
        r.push(x);
        proof {
            assert(v@ =~= all.take(v@.len() as int));
        }
    }
    proof {
        assert(r@ =~= all.reverse());
    }
    r
}

/// The enriched lexemes of a source, one after the other.
pub struct EnrichedLexemeIterator {
    pending: Vec<EnrichedLexeme>,
    scanner: Scanner,
}

impl EnrichedLexemeIterator {
    /// The enriched lexemes that are still to come.
    pub closed spec fn rest(&self) -> Seq<EnrichedLexeme> {
        self.pending@.reverse()
    }

    /// The enriched lexemes of `input`.
    pub fn new(input: Vec<char>) -> (r: Self)
        requires
            input@.len() <= MAX_INPUT,
        ensures
            exists|ls: Seq<(Lexeme, Range)>|
                fat_tokens(ls) == fat_lexemes(input@, Location { line: 1, column: 1, offset: 0 }) && r.rest()
                    == #[trigger] enriched(ls),
    {
        let (lexemes, scanner) = lex(input);
        let ghost ls = lexemes@;
        let items = enrich(lexemes);
        let pending = reversed(items);
        let r = EnrichedLexemeIterator { pending, scanner };
        proof {
            assert(r.rest() =~= enriched(ls));
        }
        r
    }

    /// Hands out the scanner as it was when the source had been read.
    /// No error comes with it: reading stops at what is no lexeme.
    pub fn into_scanner(self) -> (r: (Option<LexError>, Scanner))
        ensures
            r.0 is None,
            r.1 == self.scanner(),
    {
        (None, self.scanner)
    }

    /// The scanner that read the source.
    pub closed spec fn scanner(&self) -> Scanner {
        self.scanner
    }

    /// The next enriched lexeme.
    pub fn next(&mut self) -> (r: Option<EnrichedLexeme>)
        ensures
            match r {
                Some(x) => old(self).rest().len() > 0 && x == old(self).rest()[0] && final(self).rest() == old(
                    self,
                ).rest().drop_first(),
                None => old(self).rest().len() == 0 && final(self).rest() == old(self).rest(),
            },
    {
        let r = self.pending.pop();
        proof {
            if r is Some {
                assert(self.rest() =~= old(self).rest().drop_first());
            }
        }
        r
    }
}

/// The lexemes of a source with the braces and semicolons of the layout
/// rule, one after the other.
pub struct AugmentedLexemeIterator {
    pending: Vec<AugmentedLexeme>,
    scanner: Scanner,
}

impl AugmentedLexemeIterator {
    /// The lexemes that are still to come.
    pub closed spec fn rest(&self) -> Seq<AugmentedLexeme> {
        self.pending@.reverse()
    }

    /// The lexemes of `input` with what the layout rule puts in; fails
    /// where the braces of the source do not match its blocks.
    pub fn new(input: Vec<char>) -> (r: Result<Self, MismatchedBrackets>)
        requires
            input@.len() <= MAX_INPUT,
        ensures
            exists|ls: Seq<(Lexeme, Range)>|
                fat_tokens(ls) == fat_lexemes(input@, Location { line: 1, column: 1, offset: 0 }) && match #[trigger] laid_out(
                    enriched(ls),
                    0,
                    None,
                    Seq::empty(),
                ) {
                    Some(out) => r matches Ok(it) && it.rest() == out,
                    None => r is Err,
                },
    {
        let (lexemes, scanner) = lex(input);
        let ghost ls = lexemes@;
        let items = enrich(lexemes);
        match augment(items) {
            Ok(out) => {
                let ghost all = out@;
                let pending = reversed(out);
                let r = AugmentedLexemeIterator { pending, scanner };
                proof {
                    assert(r.rest() =~= all);
                    assert(laid_out(enriched(ls), 0, None, Seq::empty()) == Some(all));
                }
                Ok(r)
            },
            Err(e) => {
                proof {
                    assert(laid_out(enriched(ls), 0, None, Seq::empty()) is None);
                }
                Err(e)
            },
        }
    }

    /// Hands out the scanner as it was when the source had been read.
    /// No error comes with it: reading stops at what is no lexeme.
    pub fn into_scanner(self) -> (r: (Option<LexError>, Scanner))
        ensures
            r.0 is None,
            r.1 == self.scanner(),
    {
        (None, self.scanner)
    }

    /// The scanner that read the source.
    pub closed spec fn scanner(&self) -> Scanner {
        self.scanner
    }

    /// The next lexeme.
    pub fn next(&mut self) -> (r: Option<AugmentedLexeme>)
        ensures
            match r {
                Some(x) => old(self).rest().len() > 0 && x == old(self).rest()[0] && final(self).rest() == old(
                    self,
                ).rest().drop_first(),
                None => old(self).rest().len() == 0 && final(self).rest() == old(self).rest(),
            },
    {
        let r = self.pending.pop();
        proof {
            if r is Some {
                assert(self.rest() =~= old(self).rest().drop_first());
            }
        }
        r
    }
}

} // verus!
