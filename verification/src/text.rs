//! Text helpers: the few operations on `String` and `char` that the rest of
//! the crate builds its output with.

use vstd::prelude::*;

verus! {

/// The replacement character, printed in place of a code point that is no
/// Unicode scalar value.
pub const REPLACEMENT: char = '\u{FFFD}';

/// A code point is a scalar value when it lies in the Unicode range and is no
/// surrogate.
pub open spec fn is_scalar(x: u32) -> bool {
    x < 0xD800 || (0xE000 <= x && x <= 0x10FFFF)
}

/// Appends one character. `String::push` of std: the text afterwards is the
/// text before with `c` at its end.
#[verifier::external_body]
pub(crate) fn push_char(s: &mut String, c: char)
    ensures
        final(s)@ == old(s)@.push(c),
{
    s.push(c)
}

/// Converts a code point to a character. `char::from_u32` of std: `Some` of
/// the character with that code exactly for scalar values, `None` otherwise.
#[verifier::external_body]
pub(crate) fn char_from_u32(x: u32) -> (r: Option<char>)
    ensures
        is_scalar(x) ==> r == Some(x as char),
        !is_scalar(x) ==> r.is_none(),
{
    char::from_u32(x)
}

/// The character shown for a code point: itself, or the replacement
/// character where it is no scalar value.
pub open spec fn spec_display_char(x: u32) -> char {
    if is_scalar(x) {
        x as char
    } else {
        REPLACEMENT
    }
}

/// Computes [`spec_display_char`].
pub fn display_char(x: u32) -> (c: char)
    ensures
        c == spec_display_char(x),
{
    match char_from_u32(x) {
        Some(c) => c,
        None => REPLACEMENT,
    }
}

/// Appends every character of `t` to `s`.
pub fn push_str(s: &mut String, t: &str)
    ensures
        final(s)@ == old(s)@ + t@,
{
    s.append(t);
}

/// The decimal digits of `n`, most significant first.
pub open spec fn decimal(n: nat) -> Seq<char>
    decreases n,
{
    if n < 10 {
        seq![digit_char(n)]
    } else {
        decimal(n / 10).push(digit_char(n % 10))
    }
}

/// The character for one decimal digit.
pub open spec fn digit_char(d: nat) -> char {
    ((48 + d) as u8) as char
}

/// Appends the decimal form of `n` to `s`.
pub fn push_decimal(s: &mut String, n: u64)
    ensures
        final(s)@ == old(s)@ + decimal(n as nat),
    decreases n,
{
    if n >= 10 {
        push_decimal(s, n / 10);
    }
    let d: u8 = (n % 10) as u8;
    let c: char = (48u8 + d) as char;
    push_char(s, c);
    proof {
        if n < 10 {
            assert(decimal(n as nat) =~= seq![digit_char(n as nat)]);
            assert(final(s)@ =~= old(s)@ + decimal(n as nat));
        } else {
            assert(final(s)@ =~= old(s)@ + decimal(n as nat));
        }
    }
}

/// The form in which `char::escape_debug` of std writes a character: as it
/// is where it can be printed, otherwise as an escape with a backslash.
pub uninterp spec fn escaped(c: char) -> Seq<char>;

/// The escaped form of `c`. `char::escape_debug` of std: what it yields
/// depends on the character alone.
#[verifier::external_body]
fn escaped_form(c: char) -> (r: String)
    ensures
        r@ == escaped(c),
{
    c.escape_debug().collect()
}

/// Appends the escaped form of `c`.
pub(crate) fn push_escaped(s: &mut String, c: char)
    ensures
        final(s)@ == old(s)@ + escaped(c),
{
    let form = escaped_form(c);
    push_str(s, form.as_str());
}

/// The characters of a string.
pub fn chars_of(s: &str) -> (r: Vec<char>)
    ensures
        r@ == s@,
{
    let mut r: Vec<char> = Vec::new();
    let mut count: Ghost<nat> = Ghost(0);
    for c in it: s.chars()
        invariant
            it.index() == count@,
            count@ <= s@.len(),
            it.seq() == s@,
            r@ == s@.take(count@ as int),
    {
        r.push(c);
        proof {
            count@ = count@ + 1;
        }
    }
    proof {
        assert(r@ =~= s@);
    }
    r
}

/// Whether two strings are the same: they are as long, and agree in every
/// place.
pub(crate) fn str_eq(a: &str, b: &str) -> (r: bool)
    ensures
        r == (a@ == b@),
{
    let n = a.unicode_len();
    if n != b.unicode_len() {
        return false;
    }
    let mut i: usize = 0;
    while i < n
        invariant
            n == a@.len(),
            n == b@.len(),
            i <= n,
            forall|k: int| 0 <= k < i ==> a@[k] == b@[k],
        decreases n - i,
    {
        if a.get_char(i) != b.get_char(i) {
            return false;
        }
        i += 1;
    }
    proof {
        assert(a@ =~= b@);
    }
    true
}

} // verus!
