//! Numbers of any size, written in decimal digits. The arithmetic is that
//! of `num-bigint`.

use vstd::prelude::*;
use crate::char::between;
use crate::text::{decimal, digit_char};

verus! {

/// The number that the digit `c` stands for: 0 to 9, and 10 to 15 for the
/// letters `a` to `f` in either case.
pub open spec fn digit_of(c: char) -> nat {
    if between(c, '0', '9') {
        (c as u32 - '0' as u32) as nat
    } else if between(c, 'a', 'f') {
        (c as u32 - 'a' as u32 + 10) as nat
    } else if between(c, 'A', 'F') {
        (c as u32 - 'A' as u32 + 10) as nat
    } else {
        0
    }
}

/// Whether `c` is a digit of numbers to the base `base`.
pub open spec fn is_digit_in(c: char, base: nat) -> bool {
    (between(c, '0', '9') || between(c, 'a', 'f') || between(c, 'A', 'F')) && digit_of(c) < base
}

/// The number that the digits `s` are to the base `base`.
pub open spec fn radix_value(s: Seq<char>, base: nat) -> nat
    decreases s.len(),
{
    if s.len() == 0 {
        0
    } else {
        radix_value(s.drop_last(), base) * base + digit_of(s.last())
    }
}

/// Whether `s` is a numeral to the base `base`: one digit or more.
pub open spec fn is_numeral(s: Seq<char>, base: nat) -> bool {
    s.len() > 0 && forall|i: int| 0 <= i < s.len() ==> is_digit_in(#[trigger] s[i], base)
}

/// `base` to the power of `k`.
pub open spec fn power_value(base: nat, k: nat) -> nat
    decreases k,
{
    if k == 0 {
        1
    } else {
        base * power_value(base, (k - 1) as nat)
    }
}

/// Ten to the power of `k`.
pub open spec fn pow10(k: nat) -> nat {
    power_value(10, k)
}

/// The greatest common divisor; that of 0 and 0 is 0.
pub open spec fn gcd(a: nat, b: nat) -> nat
    decreases b,
{
    if b == 0 {
        a
    } else {
        gcd(b, a % b)
    }
}

/// Numbers that are not both 0 have a common divisor that is not 0.
pub proof fn lemma_gcd_positive(a: nat, b: nat)
    requires
        a > 0 || b > 0,
    ensures
        gcd(a, b) > 0,
    decreases b,
{
    if b != 0 {
        lemma_gcd_positive(b, a % b);
    }
}

/// A power of ten is not 0.
pub proof fn lemma_pow10_positive(k: nat)
    ensures
        pow10(k) > 0,
    decreases k,
{
    if k > 0 {
        lemma_pow10_positive((k - 1) as nat);
    }
}

/// The decimal digits of a number are a numeral, and the numeral of that
/// number.
pub proof fn lemma_decimal_numeral(n: nat)
    ensures
        is_numeral(decimal(n), 10),
        radix_value(decimal(n), 10) == n,
    decreases n,
{
    let s = decimal(n);
    if n < 10 {
        assert(s.drop_last() =~= Seq::<char>::empty());
        assert(s.last() == digit_char(n));
        assert(radix_value(s.drop_last(), 10) == 0);
    } else {
        lemma_decimal_numeral(n / 10);
        assert(s.drop_last() =~= decimal(n / 10));
        assert(s.last() == digit_char(n % 10));
        assert forall|i: int| 0 <= i < s.len() implies is_digit_in(#[trigger] s[i], 10) by {
            if i < s.len() - 1 {
                assert(s[i] == decimal(n / 10)[i]);
            }
        }
    }
}

/// The decimal digits of the number that the digits `digits` are to the
/// base `radix`. `BigInt::parse_bytes` of `num-bigint` reads the digits,
/// and the `Display` of `BigInt` writes the number.
#[verifier::external_body]
pub(crate) fn to_decimal(digits: &str, radix: u32) -> (r: String)
    requires
        radix == 8 || radix == 10 || radix == 16,
        is_numeral(digits@, radix as nat),
    ensures
        r@ == decimal(radix_value(digits@, radix as nat)),
{
    num_bigint::BigInt::parse_bytes(digits.as_bytes(), radix).unwrap().to_string()
}

/// The decimal digits of `base` to the power of `k`. `BigInt::pow` of
/// `num-bigint`.
#[verifier::external_body]
pub(crate) fn power(base: u32, k: u32) -> (r: String)
    ensures
        r@ == decimal(power_value(base as nat, k as nat)),
{
    num_bigint::BigInt::from(base).pow(k).to_string()
}

/// The decimal digits of the product of two numbers that are given in
/// decimal digits. `Mul` of `BigInt` in `num-bigint`.
#[verifier::external_body]
pub(crate) fn product(a: &str, b: &str) -> (r: String)
    requires
        is_numeral(a@, 10),
        is_numeral(b@, 10),
    ensures
        r@ == decimal(radix_value(a@, 10) * radix_value(b@, 10)),
{
    let x = num_bigint::BigInt::parse_bytes(a.as_bytes(), 10).unwrap();
    let y = num_bigint::BigInt::parse_bytes(b.as_bytes(), 10).unwrap();
    (x * y).to_string()
}

/// The decimal digits of the quotient of two numbers that are given in
/// decimal digits, rounded down. `Div` of `BigInt` in `num-bigint`, which
/// panics on a divisor that is 0.
#[verifier::external_body]
pub(crate) fn quotient(a: &str, b: &str) -> (r: String)
    requires
        is_numeral(a@, 10),
        is_numeral(b@, 10),
        radix_value(b@, 10) > 0,
    ensures
        r@ == decimal(radix_value(a@, 10) / radix_value(b@, 10)),
{
    let x = num_bigint::BigInt::parse_bytes(a.as_bytes(), 10).unwrap();
    let y = num_bigint::BigInt::parse_bytes(b.as_bytes(), 10).unwrap();
    (x / y).to_string()
}

/// The decimal digits of the greatest common divisor of two numbers that
/// are given in decimal digits. `Integer::gcd` of `num-integer`, as
/// `num-bigint` has it for `BigInt`.
#[verifier::external_body]
pub(crate) fn common_divisor(a: &str, b: &str) -> (r: String)
    requires
        is_numeral(a@, 10),
        is_numeral(b@, 10),
    ensures
        r@ == decimal(gcd(radix_value(a@, 10), radix_value(b@, 10))),
{
    let x = num_bigint::BigInt::parse_bytes(a.as_bytes(), 10).unwrap();
    let y = num_bigint::BigInt::parse_bytes(b.as_bytes(), 10).unwrap();
    num_integer::Integer::gcd(&x, &y).to_string()
}


/// The least common multiple; that of 0 and 0 is 0.
pub open spec fn lcm(a: nat, b: nat) -> nat {
    if gcd(a, b) == 0 {
        0
    } else {
        a / gcd(a, b) * b
    }
}

/// The decimal digits of the sum of two numbers that are given in decimal
/// digits. `Add` of `BigInt` in `num-bigint`.
#[verifier::external_body]
pub(crate) fn total(a: &str, b: &str) -> (r: String)
    requires
        is_numeral(a@, 10),
        is_numeral(b@, 10),
    ensures
        r@ == decimal(radix_value(a@, 10) + radix_value(b@, 10)),
{
    let x = num_bigint::BigInt::parse_bytes(a.as_bytes(), 10).unwrap();
    let y = num_bigint::BigInt::parse_bytes(b.as_bytes(), 10).unwrap();
    (x + y).to_string()
}

/// The decimal digits of the greatest common divisor and of the least
/// common multiple of two numbers that are given in decimal digits.
/// `Integer::gcd_lcm` of `num-integer`, as `num-bigint` has it for
/// `BigInt`: the multiple is the first number, divided by the divisor and
/// multiplied by the second, and 0 where the divisor is 0.
#[verifier::external_body]
pub(crate) fn divisor_and_multiple(a: &str, b: &str) -> (r: (String, String))
    requires
        is_numeral(a@, 10),
        is_numeral(b@, 10),
    ensures
        r.0@ == decimal(gcd(radix_value(a@, 10), radix_value(b@, 10))),
        r.1@ == decimal(lcm(radix_value(a@, 10), radix_value(b@, 10))),
{
    let x = num_bigint::BigInt::parse_bytes(a.as_bytes(), 10).unwrap();
    let y = num_bigint::BigInt::parse_bytes(b.as_bytes(), 10).unwrap();
    let (g, l) = num_integer::Integer::gcd_lcm(&x, &y);
    (g.to_string(), l.to_string())
}

} // verus!
