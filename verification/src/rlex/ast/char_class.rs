//! Unicode character classes: sets of code points kept as sorted, disjoint
//! half-open ranges.

use vstd::prelude::*;
use crate::text::{display_char, push_char, spec_display_char};

verus! {

/// One past the largest Unicode code point.
pub const CODE_POINT_LIMIT: u32 = 0x110000;

/// A range of code points, inclusive for `begin`, exclusive for `end`.
#[derive(Debug, Copy, Clone, PartialEq, Eq, Structural)]
pub struct UnicodeCharRange {
    pub begin: u32,
    pub end: u32,
}

/// Walks over the two end points of a range: `begin`, then `end`.
pub struct EndPointIter {
    range: [u32; 2],
    index: usize,
}

impl EndPointIter {
    /// The end points that are still to come.
    pub closed spec fn remaining(&self) -> Seq<u32> {
        if self.index >= 2 {
            Seq::empty()
        } else {
            self.range@.subrange(self.index as int, 2)
        }
    }

    /// Hands out the next end point, or `None` after the second.
    pub fn next(&mut self) -> (r: Option<u32>)
        ensures
            old(self).remaining().len() == 0 ==> r.is_none() && final(self).remaining().len() == 0,
            old(self).remaining().len() > 0 ==> r == Some(old(self).remaining()[0])
                && final(self).remaining() == old(self).remaining().drop_first(),
    {
        if self.index >= 2 {
            return None;
        }
        let res = Some(self.range[self.index]);
        self.index += 1;
        proof {
            assert(final(self).remaining() =~= old(self).remaining().drop_first());
        }
        res
    }
}

impl UnicodeCharRange {
    /// A range is well formed when it is not empty and ends within Unicode.
    pub open spec fn wf(&self) -> bool {
        self.begin < self.end && self.end <= CODE_POINT_LIMIT
    }

    /// Whether code point `c` lies in the range.
    pub open spec fn contains(&self, c: int) -> bool {
        self.begin <= c && c < self.end
    }

    /// A range with both end points included.
    pub fn new(begin: char, end: char) -> (r: Self)
        ensures
            r.begin == begin as u32,
            r.end == end as u32 + 1,
            r.wf() <==> begin as u32 <= end as u32,
    {
        UnicodeCharRange { begin: begin as u32, end: end as u32 + 1 }
    }

    /// A range with `end` excluded.
    pub fn new_exclusive(begin: char, end: char) -> (r: Self)
        ensures
            r.begin == begin as u32,
            r.end == end as u32,
            r.wf() <==> (begin as u32) < end as u32,
    {
        UnicodeCharRange { begin: begin as u32, end: end as u32 }
    }

    /// Both end points, `begin` first.
    pub fn end_points(&self) -> (it: EndPointIter)
        ensures
            it.remaining() == seq![self.begin, self.end],
    {
        let it = EndPointIter { range: [self.begin, self.end], index: 0 };
        proof {
            assert(it.remaining() =~= seq![self.begin, self.end]);
        }
        it
    }

    /// A range from raw code points, `end` excluded.
    pub fn from_raw(begin: u32, end: u32) -> (r: Self)
        ensures
            r.begin == begin,
            r.end == end,
    {
        UnicodeCharRange { begin, end }
    }

    /// The range that holds the single character `c`.
    pub fn from_char(c: char) -> (r: Self)
        ensures
            r.begin == c as u32,
            r.end == c as u32 + 1,
            r.wf(),
    {
        UnicodeCharRange::new(c, c)
    }

    /// The printed form of a range: the character itself for a single one,
    /// `[a-z]` otherwise.
    pub open spec fn spec_to_string(&self) -> Seq<char> {
        if self.begin + 1 == self.end {
            seq![spec_display_char(self.begin)]
        } else {
            seq!['[', spec_display_char(self.begin), '-', spec_display_char((self.end - 1) as u32), ']']
        }
    }

    /// Appends the printed form to `out`.
    pub fn write_to(&self, out: &mut String)
        requires
            self.wf(),
        ensures
            final(out)@ == old(out)@ + self.spec_to_string(),
    {
        if self.begin + 1 == self.end {
            push_char(out, display_char(self.begin));
            proof {
                assert(final(out)@ =~= old(out)@ + self.spec_to_string());
            }
        } else {
            push_char(out, '[');
            push_char(out, display_char(self.begin));
            push_char(out, '-');
            push_char(out, display_char(self.end - 1));
            push_char(out, ']');
            proof {
                assert(final(out)@ =~= old(out)@ + self.spec_to_string());
            }
        }
    }

    /// The printed form as a string of its own.
    pub fn to_string(&self) -> (s: String)
        requires
            self.wf(),
        ensures
            s@ == self.spec_to_string(),
    {
        let mut s = String::new();
        self.write_to(&mut s);
        proof {
            assert(s@ =~= self.spec_to_string());
        }
        s
    }
}

/// Every range of the sequence is well formed.
pub open spec fn ranges_wf(s: Seq<UnicodeCharRange>) -> bool {
    forall|i: int| 0 <= i < s.len() ==> (#[trigger] s[i]).wf()
}

/// The normal form of a class: well-formed ranges in increasing order, with a
/// gap of at least one code point between any two of them.
pub open spec fn ranges_normal(s: Seq<UnicodeCharRange>) -> bool {
    &&& ranges_wf(s)
    &&& forall|i: int, j: int| 0 <= i < j < s.len() ==> (#[trigger] s[i]).end < (#[trigger] s[j]).begin
}

/// Whether some range of the sequence holds code point `c`.
pub open spec fn ranges_contain(s: Seq<UnicodeCharRange>, c: int) -> bool {
    exists|i: int| 0 <= i < s.len() && (#[trigger] s[i]).contains(c)
}

/// The order in which ranges are sorted: by `begin`, then by `end`.
pub open spec fn range_le(a: UnicodeCharRange, b: UnicodeCharRange) -> bool {
    a.begin < b.begin || (a.begin == b.begin && a.end <= b.end)
}

/// The sequence is in the order of [`range_le`].
pub open spec fn ranges_sorted(s: Seq<UnicodeCharRange>) -> bool {
    forall|i: int, j: int| 0 <= i < j < s.len() ==> range_le(#[trigger] s[i], #[trigger] s[j])
}

/// The printed forms of the ranges, one after the other.
pub open spec fn ranges_text(s: Seq<UnicodeCharRange>) -> Seq<char>
    decreases s.len(),
{
    if s.len() == 0 {
        Seq::empty()
    } else {
        ranges_text(s.drop_last()) + s.last().spec_to_string()
    }
}

/// The printed form of a class: its ranges in square brackets, which are left
/// out around a single range of more than one character.
pub open spec fn class_text(s: Seq<UnicodeCharRange>) -> Seq<char> {
    if s.len() == 1 && s[0].begin + 1 != s[0].end {
        ranges_text(s)
    } else {
        seq!['['] + ranges_text(s) + seq![']']
    }
}

/// Executable form of [`range_le`].
fn range_le_exec(a: UnicodeCharRange, b: UnicodeCharRange) -> (r: bool)
    ensures
        r == range_le(a, b),
{
    a.begin < b.begin || (a.begin == b.begin && a.end <= b.end)
}

/// Every element of `a` occurs in `b`.
pub open spec fn covered_by(a: Seq<UnicodeCharRange>, b: Seq<UnicodeCharRange>) -> bool {
    forall|k: int| 0 <= k < a.len() ==> b.contains(#[trigger] a[k])
}

/// Sorts ranges by `begin`, then `end`. The result holds the same ranges.
fn sort_ranges(v: &Vec<UnicodeCharRange>) -> (r: Vec<UnicodeCharRange>)
    ensures
        r@.len() == v@.len(),
        ranges_sorted(r@),
        covered_by(r@, v@),
        covered_by(v@, r@),
{
    let mut r: Vec<UnicodeCharRange> = Vec::new();
    let mut i: usize = 0;
    while i < v.len()
        invariant
            i <= v.len(),
            r@.len() == i,
            ranges_sorted(r@),
            covered_by(r@, v@.subrange(0, i as int)),
            covered_by(v@.subrange(0, i as int), r@),
        decreases v.len() - i,
    {
        let x = v[i];
        let mut pos: usize = 0;
        while pos < r.len() && range_le_exec(r[pos], x)
            invariant
                pos <= r.len(),
                forall|k: int| 0 <= k < pos ==> range_le(#[trigger] r@[k], x),
            decreases r.len() - pos,
        {
            pos += 1;
        }
        let ghost before = r@;
        r.insert(pos, x);
        proof {
            let prefix = v@.subrange(0, i as int);
            let longer = v@.subrange(0, i + 1);
            assert(r@ == before.insert(pos as int, x));
            assert forall|a: int, b: int| 0 <= a < b < r@.len() implies range_le(
                #[trigger] r@[a],
                #[trigger] r@[b],
            ) by {
                if a < pos {
                    assert(r@[a] == before[a]);
                } else if a > pos {
                    assert(r@[a] == before[a - 1]);
                }
                if b < pos {
                    assert(r@[b] == before[b]);
                } else if b > pos {
                    assert(r@[b] == before[b - 1]);
                }
            }
            assert forall|k: int| 0 <= k < r@.len() implies longer.contains(#[trigger] r@[k]) by {
                if k == pos {
                    assert(longer[i as int] == x);
                } else {
                    let old_k = if k < pos { k } else { k - 1 };
                    assert(r@[k] == before[old_k]);
                    assert(prefix.contains(before[old_k]));
                    let j = choose|j: int| 0 <= j < prefix.len() && prefix[j] == before[old_k];
                    assert(longer[j] == before[old_k]);
                }
            }
            assert forall|j: int| 0 <= j < longer.len() implies r@.contains(#[trigger] longer[j]) by {
                if j == i {
                    assert(r@[pos as int] == x);
                } else {
                    assert(longer[j] == prefix[j]);
                    assert(before.contains(prefix[j]));
                    let k = choose|k: int| 0 <= k < before.len() && before[k] == prefix[j];
                    if k < pos {
                        assert(r@[k] == before[k]);
                    } else {
                        assert(r@[k + 1] == before[k]);
                    }
                }
            }
        }
        i += 1;
    }
    proof {
        assert(v@.subrange(0, v@.len() as int) =~= v@);
    }
    r
}

/// Merges sorted ranges that overlap or touch into the normal form.
fn merge_sorted(v: &Vec<UnicodeCharRange>) -> (r: Vec<UnicodeCharRange>)
    requires
        ranges_wf(v@),
        ranges_sorted(v@),
    ensures
        ranges_normal(r@),
        forall|c: int| ranges_contain(r@, c) <==> ranges_contain(v@, c),
{
    let mut r: Vec<UnicodeCharRange> = Vec::new();
    let mut i: usize = 0;
    while i < v.len()
        invariant
            i <= v.len(),
            ranges_wf(v@),
            ranges_sorted(v@),
            ranges_normal(r@),
            r@.len() <= i,
            i > 0 ==> r@.len() > 0,
            i > 0 ==> r@.last().begin <= v@[i - 1].begin,
            forall|c: int| ranges_contain(r@, c) <==> ranges_contain(v@.subrange(0, i as int), c),
        decreases v.len() - i,
    {
        let cur = v[i];
        let ghost before = r@;
        let ghost prefix = v@.subrange(0, i as int);
        let ghost longer = v@.subrange(0, i + 1);
        proof {
            assert(cur.wf());
            if i > 0 {
                assert(range_le(v@[i - 1], v@[i as int]));
            }
        }
        let n = r.len();
        if n > 0 && r[n - 1].end >= cur.begin {
            let last = r[n - 1];
            let end = if last.end >= cur.end { last.end } else { cur.end };
            let merged = UnicodeCharRange { begin: last.begin, end };
            r.set(n - 1, merged);
            proof {
                assert(last.wf());
                assert(merged.wf());
                assert forall|k: int| 0 <= k < r@.len() implies (#[trigger] r@[k]).wf() by {
                    if k < n - 1 {
                        assert(r@[k] == before[k]);
                    }
                }
                assert forall|a: int, b: int| 0 <= a < b < r@.len() implies (#[trigger] r@[a]).end < (
                #[trigger] r@[b]).begin by {
                    assert(r@[a] == before[a]);
                    assert(r@[b].begin == before[b].begin);
                }
                assert forall|c: int| ranges_contain(r@, c) <==> ranges_contain(longer, c) by {
                    if ranges_contain(r@, c) {
                        let k = choose|k: int| 0 <= k < r@.len() && (#[trigger] r@[k]).contains(c);
                        if k < n - 1 {
                            assert(before[k].contains(c));
                            assert(ranges_contain(before, c));
                            let j = choose|j: int| 0 <= j < prefix.len() && (#[trigger] prefix[j]).contains(c);
                            assert(longer[j].contains(c));
                        } else if last.contains(c) {
                            assert(before[n - 1].contains(c));
                            assert(ranges_contain(before, c));
                            let j = choose|j: int| 0 <= j < prefix.len() && (#[trigger] prefix[j]).contains(c);
                            assert(longer[j].contains(c));
                        } else {
                            assert(longer[i as int].contains(c));
                        }
                    }
                    if ranges_contain(longer, c) {
                        let j = choose|j: int| 0 <= j < longer.len() && (#[trigger] longer[j]).contains(c);
                        if j < i {
                            assert(prefix[j].contains(c));
                            assert(ranges_contain(prefix, c));
                            assert(ranges_contain(before, c));
                            let k = choose|k: int| 0 <= k < before.len() && (#[trigger] before[k]).contains(c);
                            if k < n - 1 {
                                assert(r@[k].contains(c));
                            } else {
                                assert(r@[n - 1].contains(c));
                            }
                        } else {
                            assert(r@[n - 1].contains(c));
                        }
                    }
                }
            }
        } else {
            r.push(cur);
            proof {
                assert forall|k: int| 0 <= k < r@.len() implies (#[trigger] r@[k]).wf() by {
                    if k < n {
                        assert(r@[k] == before[k]);
                    }
                }
                assert forall|a: int, b: int| 0 <= a < b < r@.len() implies (#[trigger] r@[a]).end < (
                #[trigger] r@[b]).begin by {
                    assert(r@[a] == before[a]);
                    if b < n {
                        assert(r@[b] == before[b]);
                    } else {
                        assert(before[n - 1].wf());
                        if a < n - 1 {
                            assert(before[a].end < before[n - 1].begin);
                        }
                    }
                }
                assert forall|c: int| ranges_contain(r@, c) <==> ranges_contain(longer, c) by {
                    if ranges_contain(r@, c) {
                        let k = choose|k: int| 0 <= k < r@.len() && (#[trigger] r@[k]).contains(c);
                        if k < n {
                            assert(before[k].contains(c));
                            assert(ranges_contain(before, c));
                            let j = choose|j: int| 0 <= j < prefix.len() && (#[trigger] prefix[j]).contains(c);
                            assert(longer[j].contains(c));
                        } else {
                            assert(longer[i as int].contains(c));
                        }
                    }
                    if ranges_contain(longer, c) {
                        let j = choose|j: int| 0 <= j < longer.len() && (#[trigger] longer[j]).contains(c);
                        if j < i {
                            assert(prefix[j].contains(c));
                            assert(ranges_contain(prefix, c));
                            assert(ranges_contain(before, c));
                            let k = choose|k: int| 0 <= k < before.len() && (#[trigger] before[k]).contains(c);
                            assert(r@[k].contains(c));
                        } else {
                            assert(r@[n as int].contains(c));
                        }
                    }
                }
            }
        }
        i += 1;
    }
    proof {
        assert(v@.subrange(0, v@.len() as int) =~= v@);
    }
    r
}

/// What is known of a sorted copy carries over to the ranges it was made of.
proof fn lemma_covered(a: Seq<UnicodeCharRange>, b: Seq<UnicodeCharRange>)
    requires
        covered_by(a, b),
        covered_by(b, a),
    ensures
        ranges_wf(b) ==> ranges_wf(a),
        forall|c: int| ranges_contain(a, c) <==> ranges_contain(b, c),
{
    if ranges_wf(b) {
        assert forall|i: int| 0 <= i < a.len() implies (#[trigger] a[i]).wf() by {
            assert(b.contains(a[i]));
            let j = choose|j: int| 0 <= j < b.len() && b[j] == a[i];
            assert(b[j].wf());
        }
    }
    assert forall|c: int| ranges_contain(a, c) <==> ranges_contain(b, c) by {
        if ranges_contain(a, c) {
            let i = choose|i: int| 0 <= i < a.len() && (#[trigger] a[i]).contains(c);
            assert(b.contains(a[i]));
            let j = choose|j: int| 0 <= j < b.len() && b[j] == a[i];
            assert(b[j].contains(c));
        }
        if ranges_contain(b, c) {
            let i = choose|i: int| 0 <= i < b.len() && (#[trigger] b[i]).contains(c);
            assert(a.contains(b[i]));
            let j = choose|j: int| 0 <= j < a.len() && a[j] == b[i];
            assert(a[j].contains(c));
        }
    }
}

/// A set of Unicode code points, kept as ranges in normal form.
pub struct UnicodeCharClass {
    intervals: Vec<UnicodeCharRange>,
}

impl View for UnicodeCharClass {
    type V = Seq<UnicodeCharRange>;

    closed spec fn view(&self) -> Seq<UnicodeCharRange> {
        self.intervals@
    }
}

impl UnicodeCharClass {
    /// The invariant of a class: its ranges are in normal form.
    pub open spec fn wf(&self) -> bool {
        ranges_normal(self@)
    }

    #[verifier::type_invariant]
    spec fn inv(self) -> bool {
        ranges_normal(self.intervals@)
    }

    /// Whether code point `c` belongs to the class.
    pub open spec fn contains(&self, c: int) -> bool {
        ranges_contain(self@, c)
    }

    /// The class without any code point.
    pub fn empty() -> (r: Self)
        ensures
            r@ == Seq::<UnicodeCharRange>::empty(),
            r.wf(),
    {
        UnicodeCharClass { intervals: Vec::new() }
    }

    /// The class of ranges that are already in normal form.
    pub fn from_sorted(intervals: Vec<UnicodeCharRange>) -> (r: Self)
        requires
            ranges_normal(intervals@),
        ensures
            r@ == intervals@,
            r.wf(),
    {
        UnicodeCharClass { intervals }
    }

    /// The class that holds one range.
    pub fn from_single_range(range: UnicodeCharRange) -> (r: Self)
        requires
            range.wf(),
        ensures
            r@ == seq![range],
            r.wf(),
    {
        let mut intervals = Vec::new();
        intervals.push(range);
        proof {
            assert(intervals@ =~= seq![range]);
        }
        UnicodeCharClass { intervals }
    }

    /// The class that holds the single character `c`.
    pub fn from_char(c: char) -> (r: Self)
        ensures
            r@ == seq![UnicodeCharRange { begin: c as u32, end: (c as u32 + 1) as u32 }],
            r.wf(),
    {
        UnicodeCharClass::from_single_range(UnicodeCharRange::from_char(c))
    }

    /// The class of all code points of the given ranges, which may come in
    /// any order, overlap and touch.
    pub fn from_ranges(intervals: Vec<UnicodeCharRange>) -> (r: Self)
        requires
            ranges_wf(intervals@),
        ensures
            r.wf(),
            forall|c: int| r.contains(c) <==> ranges_contain(intervals@, c),
    {
        let sorted = sort_ranges(&intervals);
        proof {
            lemma_covered(sorted@, intervals@);
        }
        let merged = merge_sorted(&sorted);
        UnicodeCharClass { intervals: merged }
    }

    /// The ranges of the class, in increasing order.
    pub fn iter(&self) -> (r: &Vec<UnicodeCharRange>)
        ensures
            r@ == self@,
            self.wf(),
    {
        proof {
            use_type_invariant(self);
        }
        &self.intervals
    }

    /// A copy of the class.
    pub fn duplicate(&self) -> (r: Self)
        ensures
            r@ == self@,
    {
        proof {
            use_type_invariant(self);
        }
        let mut intervals: Vec<UnicodeCharRange> = Vec::new();
        let mut i: usize = 0;
        while i < self.intervals.len()
            invariant
                i <= self.intervals.len(),
                intervals@ == self.intervals@.subrange(0, i as int),
            decreases self.intervals.len() - i,
        {
            intervals.push(self.intervals[i]);
            proof {
                assert(intervals@ =~= self.intervals@.subrange(0, i + 1));
            }
            i += 1;
        }
        proof {
            assert(intervals@ =~= self.intervals@);
        }
        UnicodeCharClass { intervals }
    }

    /// The printed form of the class.
    pub fn to_string(&self) -> (s: String)
        ensures
            s@ == class_text(self@),
    {
        proof {
            use_type_invariant(self);
        }
        let n = self.intervals.len();
        let no_bracket = n == 1 && self.intervals[0].begin + 1 != self.intervals[0].end;
        let mut s = String::new();
        if !no_bracket {
            push_char(&mut s, '[');
        }
        let ghost head = s@;
        let mut i: usize = 0;
        proof {
            assert(self@.subrange(0, 0) =~= Seq::empty());
            assert(s@ =~= head + ranges_text(self@.subrange(0, 0)));
        }
        while i < n
            invariant
                i <= n,
                n == self.intervals.len(),
                self.wf(),
                s@ == head + ranges_text(self@.subrange(0, i as int)),
            decreases n - i,
        {
            self.intervals[i].write_to(&mut s);
            proof {
                let longer = self@.subrange(0, i + 1);
                assert(longer.drop_last() =~= self@.subrange(0, i as int));
                assert(longer.last() == self@[i as int]);
                assert(s@ =~= head + ranges_text(longer));
            }
            i += 1;
        }
        proof {
            assert(self@.subrange(0, n as int) =~= self@);
        }
        if !no_bracket {
            push_char(&mut s, ']');
            proof {
                assert(head =~= seq!['[']);
                assert(s@ =~= class_text(self@));
            }
        } else {
            proof {
                assert(head =~= Seq::empty());
                assert(s@ =~= class_text(self@));
            }
        }
        s
    }
}

/// Decides whether ranges are in normal form.
pub fn check_normal(v: &Vec<UnicodeCharRange>) -> (b: bool)
    ensures
        b == ranges_normal(v@),
{
    let mut i: usize = 0;
    while i < v.len()
        invariant
            i <= v.len(),
            ranges_normal(v@.subrange(0, i as int)),
        decreases v.len() - i,
    {
        let cur = v[i];
        let ok_self = cur.begin < cur.end && cur.end <= CODE_POINT_LIMIT;
        let ok_prev = i == 0 || v[i - 1].end < cur.begin;
        if !(ok_self && ok_prev) {
            proof {
                if ranges_normal(v@) {
                    assert(v@[i as int].wf());
                    if i > 0 {
                        assert(v@[i - 1].end < v@[i as int].begin);
                    }
                }
            }
            return false;
        }
        proof {
            let prefix = v@.subrange(0, i as int);
            let longer = v@.subrange(0, i + 1);
            assert forall|k: int| 0 <= k < longer.len() implies (#[trigger] longer[k]).wf() by {
                if k < i {
                    assert(longer[k] == prefix[k]);
                }
            }
            assert forall|a: int, b: int| 0 <= a < b < longer.len() implies (#[trigger] longer[a]).end < (
            #[trigger] longer[b]).begin by {
                if b < i {
                    assert(longer[a] == prefix[a] && longer[b] == prefix[b]);
                } else if a < i - 1 {
                    assert(longer[a] == prefix[a]);
                    assert(prefix[i - 1].wf());
                    assert(prefix[a].end < prefix[i - 1].begin);
                }
            }
        }
        i += 1;
    }
    proof {
        assert(v@.subrange(0, v@.len() as int) =~= v@);
    }
    true
}

} // verus!
