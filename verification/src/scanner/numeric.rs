//! Numeric literals: integers and floats.

use vstd::prelude::*;
use crate::buffer::run_length;
use crate::char::{is_between, CharPredicate};
use crate::error::{Diagnostic, DiagnosticMessage, Error};
use crate::lexeme::{Lexeme, Ratio, Token};
use crate::number::{
    digit_of,
    gcd,
    is_digit_in,
    is_numeral,
    lemma_decimal_numeral,
    lemma_pow10_positive,
    pow10,
    power,
    product,
    radix_value,
    to_decimal,
};
use crate::scanner::whitespace::{read, Scanned};
use crate::scanner::{Location, Range, ScanResult, Scanner};
use crate::text::{decimal, push_char, push_str};
use crate::utils::Result3;

verus! {

/// The greatest exponent of a float literal, in size.
pub const MAXIMUM_EXPONENT: i64 = 4096;

/// The size at which the exponent of a float literal is cut off before
/// anything is done with it.
pub const EXPONENT_CAP: u64 = 1_000_000_000_000;

/// The digits of numbers to a base.
pub struct DigitIn(pub u32);

impl CharPredicate for DigitIn {
    open spec fn holds(&self, x: char) -> bool {
        is_digit_in(x, self.0 as nat)
    }

    fn check(&self, x: char) -> (r: bool) {
        (is_between(x, '0', '9') || is_between(x, 'a', 'f') || is_between(x, 'A', 'F')) && digit(x) < self.0
    }
}

/// Decides [`digit_of`].
pub fn digit(c: char) -> (d: u32)
    ensures
        d == digit_of(c),
        d < 16,
{
    if is_between(c, '0', '9') {
        c as u32 - '0' as u32
    } else if is_between(c, 'a', 'f') {
        c as u32 - 'a' as u32 + 10
    } else if is_between(c, 'A', 'F') {
        c as u32 - 'A' as u32 + 10
    } else {
        0
    }
}

/// Every character of a run belongs to the class.
pub proof fn lemma_run_holds<P: CharPredicate>(p: P, s: Seq<char>, i: int)
    requires
        0 <= i < run_length(p, s),
    ensures
        i < s.len(),
        p.holds(s[i]),
    decreases s.len(),
{
    if i > 0 {
        lemma_run_holds(p, s.drop_first(), i - 1);
    }
}

/// A run of digits that is not empty is a numeral.
pub proof fn lemma_run_numeral(s: Seq<char>, base: u32)
    requires
        run_length(DigitIn(base), s) > 0,
    ensures
        run_length(DigitIn(base), s) <= s.len(),
        is_numeral(s.take(run_length(DigitIn(base), s) as int), base as nat),
{
    let n = run_length(DigitIn(base), s);
    crate::buffer::lemma_run_bound(DigitIn(base), s);
    assert forall|i: int| 0 <= i < n implies is_digit_in(#[trigger] s.take(n as int)[i], base as nat) by {
        lemma_run_holds(DigitIn(base), s, i);
    }
}

/// Numerals one after the other are a numeral.
pub proof fn lemma_numeral_join(a: Seq<char>, b: Seq<char>, base: nat)
    requires
        is_numeral(a, base),
        is_numeral(b, base),
    ensures
        is_numeral(a + b, base),
{
    assert forall|i: int| 0 <= i < (a + b).len() implies is_digit_in(#[trigger] (a + b)[i], base) by {
        if i < a.len() {
            assert((a + b)[i] == a[i]);
        } else {
            assert((a + b)[i] == b[i - a.len()]);
        }
    }
}

/// An integer with a prefix that tells its base: `0`, one of the letters
/// `lower` and `upper`, and digits to the base.
pub open spec fn prefixed(s: Seq<char>, lower: char, upper: char, base: u32) -> Option<(Token, nat)> {
    if s.len() >= 2 && s[0] == '0' && (s[1] == lower || s[1] == upper) && run_length(DigitIn(base), s.skip(2)) > 0 {
        let n = run_length(DigitIn(base), s.skip(2));
        Some((Token::Integer(decimal(radix_value(s.skip(2).take(n as int), base as nat))), 2 + n))
    } else {
        None
    }
}

/// The integer literal that `s` begins with, and its length: octal after
/// `0o`, hexadecimal after `0x`, decimal otherwise. The lexeme holds the
/// number in decimal digits.
pub open spec fn integer(s: Seq<char>) -> Option<(Token, nat)> {
    if prefixed(s, 'o', 'O', 8) is Some {
        prefixed(s, 'o', 'O', 8)
    } else if prefixed(s, 'x', 'X', 16) is Some {
        prefixed(s, 'x', 'X', 16)
    } else {
        let n = run_length(DigitIn(10), s);
        if n > 0 {
            Some((Token::Integer(decimal(radix_value(s.take(n as int), 10))), n))
        } else {
            None
        }
    }
}

/// What was read for an exponent, and the exponent if there is one.
pub ghost struct Exponent {
    pub taken: nat,
    pub value: Option<int>,
}

/// The exponent that `s` begins with: `e` or `E`, a sign or none, and
/// decimal digits. The character that is there in place of the `e` is read
/// with it, and so are an `e` and a sign that no digit follows.
pub open spec fn exponent(s: Seq<char>) -> Exponent {
    if s.len() == 0 {
        Exponent { taken: 0, value: None }
    } else if !(s[0] == 'e' || s[0] == 'E') {
        Exponent { taken: 1, value: None }
    } else {
        let signed = s.len() > 1 && (s[1] == '+' || s[1] == '-');
        let k: nat = if signed {
            2
        } else {
            1
        };
        let m = run_length(DigitIn(10), s.skip(k as int));
        if m == 0 {
            Exponent { taken: k, value: None }
        } else {
            let v = radix_value(s.skip(k as int).take(m as int), 10);
            Exponent {
                taken: k + m,
                value: Some(
                    if signed && s[1] == '-' {
                        -cut(v)
                    } else {
                        cut(v)
                    },
                ),
            }
        }
    }
}

/// The number `v`, or the size at which exponents are cut off if `v` is
/// greater.
pub open spec fn cut(v: nat) -> int {
    if v > EXPONENT_CAP {
        EXPONENT_CAP as int
    } else {
        v as int
    }
}

/// The float of the digits `d` with the exponent `e`: the fraction in
/// lowest terms; one or minus one over nothing if the exponent is beyond
/// what is taken.
pub open spec fn float_token(d: nat, e: int) -> Token {
    if 0 <= e <= MAXIMUM_EXPONENT {
        Token::Float(decimal(d * pow10(e as nat)), seq!['1'])
    } else if -MAXIMUM_EXPONENT <= e < 0 {
        let p = pow10((-e) as nat);
        let g = gcd(d, p);
        Token::Float(decimal(d / g), decimal(p / g))
    } else if e > 0 {
        Token::Float(seq!['1'], seq!['0'])
    } else {
        Token::Float(seq!['-', '1'], seq!['0'])
    }
}

/// The diagnostic that the float literal from `begin` to `end` has the
/// exponent `e`, which is beyond what is taken.
pub open spec fn float_out_of_bound(begin: Location, end: Location, e: int) -> Diagnostic {
    Diagnostic {
        location: end,
        range: Some(Range { begin, end }),
        message: DiagnosticMessage::Error(Error::FloatOutOfBound(e as i64)),
    }
}

/// Reading a float literal of `n` characters with the exponent `e`.
pub open spec fn float_read(s: Seq<char>, from: Location, n: nat, e: int) -> Scanned {
    let r = read(s, from, n);
    if -MAXIMUM_EXPONENT <= e <= MAXIMUM_EXPONENT {
        r
    } else {
        Scanned { taken: n, place: r.place, reports: r.reports.push(float_out_of_bound(from, r.place, e)) }
    }
}

/// A float literal with a fraction: digits, a point, digits, and what is
/// read for an exponent.
pub open spec fn float1(s: Seq<char>, from: Location) -> Option<(Token, Scanned)> {
    let a = run_length(DigitIn(10), s);
    if a > 0 && a < s.len() && s[a as int] == '.' {
        let t = s.skip(a as int + 1);
        let b = run_length(DigitIn(10), t);
        if b > 0 {
            let x = exponent(t.skip(b as int));
            let d = radix_value(s.take(a as int) + t.take(b as int), 10);
            let e = match x.value {
                Some(v) => v - b,
                None => -(b as int),
            };
            Some((float_token(d, e), float_read(s, from, a + 1 + b + x.taken, e)))
        } else {
            None
        }
    } else {
        None
    }
}

/// A float literal without a fraction: digits and an exponent.
pub open spec fn float2(s: Seq<char>, from: Location) -> Option<(Token, Scanned)> {
    let a = run_length(DigitIn(10), s);
    if a > 0 {
        let x = exponent(s.skip(a as int));
        match x.value {
            Some(e) => Some((float_token(radix_value(s.take(a as int), 10), e), float_read(s, from, a + x.taken, e))),
            None => None,
        }
    } else {
        None
    }
}

/// The numeric literal that `s` begins with: a float with a fraction, a
/// float without, or an integer.
pub open spec fn numeric_literal(s: Seq<char>, from: Location) -> Option<(Token, Scanned)> {
    if float1(s, from) is Some {
        float1(s, from)
    } else if float2(s, from) is Some {
        float2(s, from)
    } else {
        match integer(s) {
            Some((t, n)) => Some((t, read(s, from, n))),
            None => None,
        }
    }
}

/// One digit more: the number of a numeral with one digit more.
pub proof fn lemma_radix_push(s: Seq<char>, c: char, base: nat)
    ensures
        radix_value(s.push(c), base) == radix_value(s, base) * base + digit_of(c),
{
    assert(s.push(c).drop_last() =~= s);
}

impl Scanner {
    /// The number that the digits from `from` up to `to` places on are to
    /// the base `base`; `cap` if it is greater.
    pub fn capped_value(&self, from: usize, to: usize, base: u32, cap: u64) -> (v: u64)
        requires
            self.wf(),
            from <= to <= self.rest().len(),
            2 <= base <= 16,
            cap <= 0x00FF_FFFF_FFFF_FFFF,
        ensures
            v == if radix_value(self.rest().subrange(from as int, to as int), base as nat) > cap {
                cap as nat
            } else {
                radix_value(self.rest().subrange(from as int, to as int), base as nat)
            },
    {
        let ghost s = self.rest();
        let mut v: u64 = 0;
        let mut i: usize = from;
        proof {
            assert(s.subrange(from as int, from as int) =~= Seq::<char>::empty());
        }
        while i < to
            invariant
                self.wf(),
                s == self.rest(),
                from <= i <= to <= s.len(),
                2 <= base <= 16,
                cap <= 0x00FF_FFFF_FFFF_FFFF,
                v <= cap,
                v == if radix_value(s.subrange(from as int, i as int), base as nat) > cap {
                    cap as nat
                } else {
                    radix_value(s.subrange(from as int, i as int), base as nat)
                },
            decreases to - i,
        {
            let c = self.peek_at(i).unwrap();
            let d = digit(c);
            proof {
                let before = s.subrange(from as int, i as int);
                assert(s.subrange(from as int, i + 1) =~= before.push(c));
                lemma_radix_push(before, c, base as nat);
                let x = radix_value(before, base as nat);
                assert(x > cap ==> x * base + d > cap) by (nonlinear_arith)
                    requires
                        base >= 2,
                        d >= 0,
                ;
                assert(v <= v * base <= 0x0FFF_FFFF_FFFF_FFFF0) by (nonlinear_arith)
                    requires
                        v <= 0x00FF_FFFF_FFFF_FFFF,
                        2 <= base <= 16,
                ;
            }
            let next = v * (base as u64) + d as u64;
            v = if next > cap {
                cap
            } else {
                next
            };
            i += 1;
        }
        v
    }

    /// The integer with a prefix that is next, and its length.
    fn prefixed(&self, lower: char, upper: char, base: u32) -> (r: Option<(Lexeme, usize)>)
        requires
            self.wf(),
            base == 8 || base == 16,
        ensures
            match prefixed(self.rest(), lower, upper, base) {
                Some((t, n)) => r matches Some((l, k)) && l@ == t && k == n && n <= self.rest().len(),
                None => r is None,
            },
    {
        let total = self.remaining();
        if total < 2 {
            return None;
        }
        let mark = self.peek_at(1).unwrap();
        if !(self.peek_at(0).unwrap() == '0' && (mark == lower || mark == upper)) {
            return None;
        }
        let n = self.count_run(&DigitIn(base), 2);
        if n == 0 {
            return None;
        }
        let digits = self.text(2, 2 + n);
        proof {
            let t = self.rest().skip(2);
            lemma_run_numeral(t, base);
            assert(t.take(n as int) =~= self.rest().subrange(2, 2 + n));
        }
        Some((Lexeme::Integer(to_decimal(digits.as_str(), base)), 2 + n))
    }

    /// The integer literal that is next, and its length.
    pub fn find_integer(&self) -> (r: Option<(Lexeme, usize)>)
        requires
            self.wf(),
        ensures
            match integer(self.rest()) {
                Some((t, n)) => r matches Some((l, k)) && l@ == t && k == n && n <= self.rest().len(),
                None => r is None,
            },
    {
        let r = self.prefixed('o', 'O', 8);
        if r.is_some() {
            return r;
        }
        let r = self.prefixed('x', 'X', 16);
        if r.is_some() {
            return r;
        }
        let n = self.count_run(&DigitIn(10), 0);
        proof {
            assert(self.rest().skip(0) =~= self.rest());
        }
        if n == 0 {
            return None;
        }
        let digits = self.text(0, n);
        proof {
            lemma_run_numeral(self.rest(), 10);
            assert(self.rest().take(n as int) =~= self.rest().subrange(0, n as int));
        }
        Some((Lexeme::Integer(to_decimal(digits.as_str(), 10)), n))
    }

    /// What is read for the exponent that begins `at` places on, and the
    /// exponent if there is one.
    fn find_exponent(&self, at: usize) -> (r: (usize, Option<i64>))
        requires
            self.wf(),
            at <= self.rest().len(),
        ensures
            r.0 == exponent(self.rest().skip(at as int)).taken,
            at + r.0 <= self.rest().len(),
            match exponent(self.rest().skip(at as int)).value {
                Some(v) => r.1 == Some(v as i64) && -EXPONENT_CAP <= v <= EXPONENT_CAP,
                None => r.1 is None,
            },
    {
        let ghost s = self.rest().skip(at as int);
        let total = self.remaining();
        if at >= total {
            return (0, None);
        }
        let c = self.peek_at(at).unwrap();
        if !(c == 'e' || c == 'E') {
            return (1, None);
        }
        let sign = if at + 1 < total {
            self.peek_at(at + 1)
        } else {
            None
        };
        let signed = sign == Some('+') || sign == Some('-');
        let k: usize = if signed {
            2
        } else {
            1
        };
        let m = self.count_run(&DigitIn(10), at + k);
        proof {
            assert(s.skip(k as int) =~= self.rest().skip(at + k));
        }
        if m == 0 {
            return (k, None);
        }
        let v = self.capped_value(at + k, at + k + m, 10, EXPONENT_CAP);
        proof {
            assert(s.skip(k as int).take(m as int) =~= self.rest().subrange(at + k, at + k + m));
        }
        let value: i64 = if sign == Some('-') {
            -(v as i64)
        } else {
            v as i64
        };
        (k + m, Some(value))
    }

    /// The float of the digits `digits` with the exponent `e`.
    fn make_float(digits: String, e: i64) -> (r: Lexeme)
        requires
            is_numeral(digits@, 10),
        ensures
            r@ == float_token(radix_value(digits@, 10), e as int),
    {
        let d = to_decimal(digits.as_str(), 10);
        proof {
            lemma_decimal_numeral(radix_value(digits@, 10));
        }
        if 0 <= e && e <= MAXIMUM_EXPONENT {
            let p = power(10, e as u32);
            proof {
                lemma_decimal_numeral(pow10(e as nat));
            }
            Lexeme::Float(Ratio::whole(product(d.as_str(), p.as_str())))
        } else if -MAXIMUM_EXPONENT <= e && e < 0 {
            let p = power(10, (-e) as u32);
            proof {
                lemma_decimal_numeral(pow10((-e) as nat));
                lemma_pow10_positive((-e) as nat);
            }
            Lexeme::Float(Ratio::new(d, p))
        } else {
            let mut numerator = String::new();
            if e < 0 {
                push_char(&mut numerator, '-');
            }
            push_char(&mut numerator, '1');
            let mut denominator = String::new();
            push_char(&mut denominator, '0');
            proof {
                assert(denominator@ =~= seq!['0']);
                if e < 0 {
                    assert(numerator@ =~= seq!['-', '1']);
                } else {
                    assert(numerator@ =~= seq!['1']);
                }
            }
            Lexeme::Float(Ratio { numerator, denominator })
        }
    }

    /// Reads the `n` characters of a float literal with the exponent `e`,
    /// and reports the exponent if it is beyond what is taken.
    fn read_float(&mut self, n: usize, e: i64)
        requires
            old(self).wf(),
            n <= old(self).rest().len(),
        ensures
            old(self).went(final(self), float_read(old(self).rest(), old(self).place(), n as nat, e as int)),
    {
        let begin = self.location();
        self.advance(n);
        if !(-MAXIMUM_EXPONENT <= e && e <= MAXIMUM_EXPONENT) {
            let end = self.location();
            let d = Diagnostic::new(end, DiagnosticMessage::Error(Error::FloatOutOfBound(e)));
            self.report(d.within(begin, end));
        }
    }

    /// Reads a float literal with a fraction, if one is next.
    fn float1(&mut self) -> (r: Option<Lexeme>)
        requires
            old(self).wf(),
        ensures
            match float1(old(self).rest(), old(self).place()) {
                Some((t, x)) => r matches Some(l) && l@ == t && old(self).went(final(self), x),
                None => r is None && old(self).same(final(self)),
            },
    {
        let ghost s = self.rest();
        let total = self.remaining();
        let a = self.count_run(&DigitIn(10), 0);
        proof {
            assert(s.skip(0) =~= s);
        }
        if !(a > 0 && a < total && self.peek_at(a).unwrap() == '.') {
            return None;
        }
        let b = self.count_run(&DigitIn(10), a + 1);
        if b == 0 {
            return None;
        }
        let (taken, value) = self.find_exponent(a + 1 + b);
        let mut digits = self.text(0, a);
        let fraction = self.text(a + 1, a + 1 + b);
        push_str(&mut digits, fraction.as_str());
        proof {
            let t = s.skip(a + 1);
            lemma_run_numeral(s, 10);
            lemma_run_numeral(t, 10);
            assert(s.take(a as int) =~= s.subrange(0, a as int));
            assert(t.take(b as int) =~= s.subrange(a + 1, a + 1 + b));
            assert(t.skip(b as int) =~= s.skip(a + 1 + b));
            lemma_numeral_join(s.take(a as int), t.take(b as int), 10);
        }
        let e: i64 = match value {
            Some(v) => v - b as i64,
            None => -(b as i64),
        };
        let l = Scanner::make_float(digits, e);
        self.read_float(a + 1 + b + taken, e);
        Some(l)
    }

    /// Reads a float literal without a fraction, if one is next.
    fn float2(&mut self) -> (r: Option<Lexeme>)
        requires
            old(self).wf(),
        ensures
            match float2(old(self).rest(), old(self).place()) {
                Some((t, x)) => r matches Some(l) && l@ == t && old(self).went(final(self), x),
                None => r is None && old(self).same(final(self)),
            },
    {
        let ghost s = self.rest();
        let a = self.count_run(&DigitIn(10), 0);
        proof {
            assert(s.skip(0) =~= s);
        }
        if a == 0 {
            return None;
        }
        let (taken, value) = self.find_exponent(a);
        match value {
            Some(e) => {
                let digits = self.text(0, a);
                proof {
                    lemma_run_numeral(s, 10);
                    assert(s.take(a as int) =~= s.subrange(0, a as int));
                }
                let l = Scanner::make_float(digits, e);
                self.read_float(a + taken, e);
                Some(l)
            },
            None => None,
        }
    }

    /// Reads a numeric literal; fails, for another rule to be tried, if
    /// none is next.
    pub fn numeric_literal(&mut self) -> (r: ScanResult<Lexeme>)
        requires
            old(self).wf(),
        ensures
            match numeric_literal(old(self).rest(), old(self).place()) {
                Some((t, x)) => r matches Result3::Success(l) && l@ == t && old(self).went(final(self), x),
                None => r is RetryLater && old(self).same(final(self)),
            },
    {
        match self.float1() {
            Some(l) => {
                return Result3::Success(l);
            },
            None => {},
        }
        match self.float2() {
            Some(l) => {
                return Result3::Success(l);
            },
            None => {},
        }
        match self.find_integer() {
            Some((l, n)) => {
                self.advance(n);
                Result3::Success(l)
            },
            None => Scanner::keep_trying(),
        }
    }
}

} // verus!
