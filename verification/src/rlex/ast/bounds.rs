//! Ranges of characters as the language writes them, turned into ranges of
//! code points.

use vstd::prelude::*;
use vstd::std_specs::convert::FromSpecImpl;
use std::ops::{Range, RangeFrom, RangeInclusive, RangeTo, RangeToInclusive};
use crate::rlex::ast::char_class::{UnicodeCharRange, CODE_POINT_LIMIT};

verus! {

/// `std::ops::RangeFrom`: a range with a first item and no last.
#[verifier::external_type_specification]
#[verifier::reject_recursive_types(Idx)]
pub struct ExRangeFrom<Idx>(RangeFrom<Idx>);

/// `std::ops::RangeTo`: a range up to an item that it does not hold.
#[verifier::external_type_specification]
#[verifier::reject_recursive_types(Idx)]
pub struct ExRangeTo<Idx>(RangeTo<Idx>);

/// `std::ops::RangeToInclusive`: a range up to an item that it holds.
#[verifier::external_type_specification]
#[verifier::reject_recursive_types(Idx)]
pub struct ExRangeToInclusive<Idx>(RangeToInclusive<Idx>);

/// `RangeInclusive::start` of std: the lower bound of the range.
pub assume_specification<Idx>[ RangeInclusive::<Idx>::start ](r: &RangeInclusive<Idx>) -> (ret: &Idx)
    ensures
        *ret == r@.start,
;

/// `RangeInclusive::end` of std: the upper bound of the range, which the
/// range holds.
pub assume_specification<Idx>[ RangeInclusive::<Idx>::end ](r: &RangeInclusive<Idx>) -> (ret: &Idx)
    ensures
        *ret == r@.end,
;

impl FromSpecImpl<char> for UnicodeCharRange {
    open spec fn obeys_from_spec() -> bool {
        true
    }

    open spec fn from_spec(c: char) -> Self {
        UnicodeCharRange { begin: c as u32, end: (c as u32 + 1) as u32 }
    }
}

impl From<char> for UnicodeCharRange {
    /// The range that holds the single character `c`.
    fn from(c: char) -> (r: Self) {
        UnicodeCharRange::new(c, c)
    }
}

impl FromSpecImpl<Range<char>> for UnicodeCharRange {
    open spec fn obeys_from_spec() -> bool {
        true
    }

    open spec fn from_spec(r: Range<char>) -> Self {
        UnicodeCharRange { begin: r.start as u32, end: r.end as u32 }
    }
}

impl From<Range<char>> for UnicodeCharRange {
    /// The range from `start` up to `end`, which it does not hold.
    fn from(r: Range<char>) -> (out: Self) {
        UnicodeCharRange::new_exclusive(r.start, r.end)
    }
}

impl FromSpecImpl<RangeInclusive<char>> for UnicodeCharRange {
    open spec fn obeys_from_spec() -> bool {
        true
    }

    open spec fn from_spec(r: RangeInclusive<char>) -> Self {
        UnicodeCharRange { begin: r@.start as u32, end: (r@.end as u32 + 1) as u32 }
    }
}

impl From<RangeInclusive<char>> for UnicodeCharRange {
    /// The range from the lower bound up to the upper bound, which it
    /// holds.
    fn from(r: RangeInclusive<char>) -> (out: Self) {
        UnicodeCharRange::new(*r.start(), *r.end())
    }
}

impl FromSpecImpl<RangeFrom<char>> for UnicodeCharRange {
    open spec fn obeys_from_spec() -> bool {
        true
    }

    open spec fn from_spec(r: RangeFrom<char>) -> Self {
        UnicodeCharRange { begin: r.start as u32, end: CODE_POINT_LIMIT }
    }
}

impl From<RangeFrom<char>> for UnicodeCharRange {
    /// The range from `start` up to the last code point.
    fn from(r: RangeFrom<char>) -> (out: Self) {
        UnicodeCharRange::new(r.start, '\u{10FFFF}')
    }
}

impl FromSpecImpl<RangeTo<char>> for UnicodeCharRange {
    open spec fn obeys_from_spec() -> bool {
        true
    }

    open spec fn from_spec(r: RangeTo<char>) -> Self {
        UnicodeCharRange { begin: 0, end: r.end as u32 }
    }
}

impl From<RangeTo<char>> for UnicodeCharRange {
    /// The range from the first code point up to `end`, which it does not
    /// hold.
    fn from(r: RangeTo<char>) -> (out: Self) {
        UnicodeCharRange::new_exclusive('\0', r.end)
    }
}

impl FromSpecImpl<RangeToInclusive<char>> for UnicodeCharRange {
    open spec fn obeys_from_spec() -> bool {
        true
    }

    open spec fn from_spec(r: RangeToInclusive<char>) -> Self {
        UnicodeCharRange { begin: 0, end: (r.end as u32 + 1) as u32 }
    }
}

impl From<RangeToInclusive<char>> for UnicodeCharRange {
    /// The range from the first code point up to `end`, which it holds.
    fn from(r: RangeToInclusive<char>) -> (out: Self) {
        UnicodeCharRange::new('\0', r.end)
    }
}

} // verus!
