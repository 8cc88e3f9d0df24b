//! The alphabet partition: a table of split points cuts the code points into
//! blocks, and a character class becomes the set of the blocks it is made of.

use vstd::prelude::*;
use crate::rlex::ast::char_class::{
    ranges_contain,
    ranges_normal,
    UnicodeCharClass,
    UnicodeCharRange,
    CODE_POINT_LIMIT,
};
use crate::rlex::ordered::{find, lemma_increasing_gap, strictly_increasing};

verus! {

/// A table of split points: strictly increasing, from 0 to the end of
/// Unicode. Block `k` of the table is the code points from `t[k]` up to, not
/// including, `t[k + 1]`.
pub open spec fn split_table(t: Seq<u32>) -> bool {
    &&& strictly_increasing(t)
    &&& t.len() >= 2
    &&& t[0] == 0
    &&& t.last() == CODE_POINT_LIMIT
}

/// Whether `y` is an end point of a range of the class.
pub open spec fn class_point(cls: Seq<UnicodeCharRange>, y: u32) -> bool {
    exists|j: int| 0 <= j < cls.len() && ((#[trigger] cls[j]).begin == y || cls[j].end == y)
}

/// Whether code point `c` lies in block `k` of the table.
pub open spec fn in_block(t: Seq<u32>, k: int, c: int) -> bool {
    0 <= k && k + 1 < t.len() && t[k] <= c && c < t[k + 1]
}

/// Every code point of block `k` belongs to the class.
pub open spec fn block_inside(t: Seq<u32>, k: int, cls: Seq<UnicodeCharRange>) -> bool {
    forall|c: int| in_block(t, k, c) ==> ranges_contain(cls, c)
}

/// No code point of block `k` belongs to the class.
pub open spec fn block_outside(t: Seq<u32>, k: int, cls: Seq<UnicodeCharRange>) -> bool {
    forall|c: int| in_block(t, k, c) ==> !ranges_contain(cls, c)
}

/// The class is a union of whole blocks of the table.
pub open spec fn respects(t: Seq<u32>, cls: Seq<UnicodeCharRange>) -> bool {
    forall|k: int| 0 <= k && k + 1 < t.len() ==> block_inside(t, k, cls) || block_outside(t, k, cls)
}

/// `v` is the classified form of the class: the indices of the blocks that
/// lie inside it, in increasing order.
pub open spec fn class_indices(t: Seq<u32>, cls: Seq<UnicodeCharRange>, v: Seq<u32>) -> bool {
    &&& strictly_increasing(v)
    &&& forall|k: u32| v.contains(k) <==> (k + 1 < t.len() && block_inside(t, k as int, cls))
}

/// Whether code point `c` lies in one of the blocks that `v` names.
pub open spec fn blocks_contain(t: Seq<u32>, v: Seq<u32>, c: int) -> bool {
    exists|i: int| 0 <= i < v.len() && in_block(t, (#[trigger] v[i]) as int, c)
}

/// Block `k` lies within the range.
pub open spec fn block_within(t: Seq<u32>, k: int, r: UnicodeCharRange) -> bool {
    0 <= k && k + 1 < t.len() && r.begin <= t[k] && t[k + 1] <= r.end
}

/// Block `k` lies within one of the first `n` ranges of the class.
pub open spec fn block_within_some(t: Seq<u32>, k: int, cls: Seq<UnicodeCharRange>, n: int) -> bool {
    exists|j: int| 0 <= j < n && j < cls.len() && block_within(t, k, #[trigger] cls[j])
}

/// The index of a value of the table.
proof fn lemma_index_of(t: Seq<u32>, y: u32) -> (i: int)
    requires
        t.contains(y),
    ensures
        0 <= i < t.len(),
        t[i] == y,
{
    choose|i: int| 0 <= i < t.len() && t[i] == y
}

/// A code point between two entries of the table lies in a block between
/// them.
proof fn lemma_locate(t: Seq<u32>, lo: int, hi: int, c: int) -> (k: int)
    requires
        strictly_increasing(t),
        0 <= lo < hi < t.len(),
        t[lo] <= c < t[hi],
    ensures
        lo <= k < hi,
        in_block(t, k, c),
    decreases hi - lo,
{
    if c < t[lo + 1] {
        lo
    } else {
        lemma_locate(t, lo + 1, hi, c)
    }
}

/// For a class whose end points are in the table, a block lies inside the
/// class exactly if it lies within one of its ranges.
proof fn lemma_inside_is_within(t: Seq<u32>, cls: Seq<UnicodeCharRange>, k: int)
    requires
        split_table(t),
        ranges_normal(cls),
        forall|y: u32| class_point(cls, y) ==> t.contains(y),
        0 <= k,
        k + 1 < t.len(),
    ensures
        block_inside(t, k, cls) <==> block_within_some(t, k, cls, cls.len() as int),
{
    if block_within_some(t, k, cls, cls.len() as int) {
        let j = choose|j: int| 0 <= j < cls.len() && block_within(t, k, #[trigger] cls[j]);
        assert forall|c: int| in_block(t, k, c) implies ranges_contain(cls, c) by {
            assert(cls[j].contains(c));
        }
    }
    if block_inside(t, k, cls) {
        let c = t[k] as int;
        assert(in_block(t, k, c));
        assert(ranges_contain(cls, c));
        let j = choose|j: int| 0 <= j < cls.len() && (#[trigger] cls[j]).contains(c);
        assert(class_point(cls, cls[j].end));
        let h = lemma_index_of(t, cls[j].end);
        assert(k < h);
        assert(block_within(t, k, cls[j]));
    }
}

/// The code points of a class are those of the blocks of its classified
/// form: nothing is lost and nothing added by classification.
pub proof fn lemma_class_complete(t: Seq<u32>, cls: Seq<UnicodeCharRange>, v: Seq<u32>)
    requires
        split_table(t),
        ranges_normal(cls),
        forall|y: u32| class_point(cls, y) ==> t.contains(y),
        class_indices(t, cls, v),
    ensures
        forall|c: int| ranges_contain(cls, c) <==> blocks_contain(t, v, c),
{
    assert forall|c: int| ranges_contain(cls, c) <==> blocks_contain(t, v, c) by {
        if ranges_contain(cls, c) {
            let j = choose|j: int| 0 <= j < cls.len() && (#[trigger] cls[j]).contains(c);
            assert(class_point(cls, cls[j].begin));
            assert(class_point(cls, cls[j].end));
            let lo = lemma_index_of(t, cls[j].begin);
            let hi = lemma_index_of(t, cls[j].end);
            assert(cls[j].wf());
            assert(lo < hi);
            let k = lemma_locate(t, lo, hi, c);
            assert(block_within(t, k, cls[j]));
            lemma_inside_is_within(t, cls, k);
            lemma_increasing_gap(t, 0, k);
            assert(v.contains(k as u32));
            let i = choose|i: int| 0 <= i < v.len() && v[i] == k as u32;
            assert(in_block(t, v[i] as int, c));
        }
        if blocks_contain(t, v, c) {
            let i = choose|i: int| 0 <= i < v.len() && in_block(t, (#[trigger] v[i]) as int, c);
            assert(v.contains(v[i]));
            assert(block_inside(t, v[i] as int, cls));
        }
    }
}

/// A class whose end points are all in the table is a union of whole blocks.
pub proof fn lemma_class_respects(t: Seq<u32>, cls: Seq<UnicodeCharRange>)
    requires
        split_table(t),
        ranges_normal(cls),
        forall|y: u32| class_point(cls, y) ==> t.contains(y),
    ensures
        respects(t, cls),
{
    assert forall|k: int| 0 <= k && k + 1 < t.len() implies block_inside(t, k, cls) || block_outside(
        t,
        k,
        cls,
    ) by {
        if !block_outside(t, k, cls) {
            let c = choose|c: int| in_block(t, k, c) && ranges_contain(cls, c);
            let j = choose|j: int| 0 <= j < cls.len() && (#[trigger] cls[j]).contains(c);
            assert(class_point(cls, cls[j].begin));
            assert(class_point(cls, cls[j].end));
            let lo = lemma_index_of(t, cls[j].begin);
            let hi = lemma_index_of(t, cls[j].end);
            assert(lo <= k);
            assert(k < hi);
            assert(block_within(t, k, cls[j]));
            lemma_inside_is_within(t, cls, k);
        }
    }
}

/// Rewrites a class as the set of the blocks it is made of.
pub fn classify_class(cls: &UnicodeCharClass, table: &[u32]) -> (v: Vec<u32>)
    requires
        split_table(table@),
        forall|y: u32| class_point(cls@, y) ==> table@.contains(y),
    ensures
        class_indices(table@, cls@, v@),
        forall|c: int| ranges_contain(cls@, c) <==> blocks_contain(table@, v@, c),
{
    let ranges = cls.iter();
    let ghost t = table@;
    let ghost rs = ranges@;
    let mut v: Vec<u32> = Vec::new();
    let mut i: usize = 0;
    while i < ranges.len()
        invariant
            i <= rs.len(),
            rs == ranges@,
            t == table@,
            split_table(t),
            ranges_normal(rs),
            forall|y: u32| class_point(rs, y) ==> t.contains(y),
            strictly_increasing(v@),
            forall|k: u32| v@.contains(k) <==> block_within_some(t, k as int, rs, i as int),
        decreases rs.len() - i,
    {
        let cur = ranges[i];
        proof {
            assert(class_point(rs, cur.begin));
            assert(class_point(rs, cur.end));
            assert(cur.wf());
        }
        let lo = match find(table, cur.begin) {
            Ok(k) => k,
            Err(_) => {
                proof {
                    assert(false);
                }
                0
            },
        };
        let hi = match find(table, cur.end) {
            Ok(k) => k,
            Err(_) => {
                proof {
                    assert(false);
                }
                0
            },
        };
        let mut k: usize = lo;
        proof {
            assert(lo < hi);
            assert forall|x: u32| v@.contains(x) implies x < lo by {
                let j = choose|j: int| 0 <= j < i && block_within(t, x as int, #[trigger] rs[j]);
                assert(rs[j].end < rs[i as int].begin);
                assert(t[x as int] < t[lo as int]);
            }
        }
        while k < hi
            invariant
                lo <= k <= hi < t.len(),
                i < rs.len(),
                cur == rs[i as int],
                t == table@,
                split_table(t),
                t[lo as int] == cur.begin,
                t[hi as int] == cur.end,
                strictly_increasing(v@),
                forall|x: u32| v@.contains(x) ==> x < k,
                forall|x: u32|
                    v@.contains(x) <==> (block_within_some(t, x as int, rs, i as int) || lo <= x < k),
            decreases hi - k,
        {
            proof {
                lemma_increasing_gap(t, 0, k as int);
            }
            let ghost before = v@;
            v.push(k as u32);
            proof {
                assert forall|a: int, b: int| 0 <= a < b < v@.len() implies v@[a] < v@[b] by {
                    if b == before.len() {
                        assert(before.contains(before[a]));
                    }
                }
                assert forall|x: u32|
                    v@.contains(x) <==> (block_within_some(t, x as int, rs, i as int) || lo <= x < k
                        + 1) by {
                    if v@.contains(x) {
                        let a = choose|a: int| 0 <= a < v@.len() && v@[a] == x;
                        if a < before.len() {
                            assert(before.contains(x));
                        }
                    }
                    if before.contains(x) {
                        let a = choose|a: int| 0 <= a < before.len() && before[a] == x;
                        assert(v@[a] == x);
                    }
                    if x == k {
                        assert(v@[before.len() as int] == x);
                    }
                }
                assert forall|x: u32| v@.contains(x) implies x < k + 1 by {
                    let a = choose|a: int| 0 <= a < v@.len() && v@[a] == x;
                    if a < before.len() {
                        assert(before.contains(x));
                    }
                }
            }
            k += 1;
        }
        proof {
            assert forall|x: u32| v@.contains(x) <==> block_within_some(t, x as int, rs, i + 1) by {
                if block_within_some(t, x as int, rs, i + 1) {
                    let j = choose|j: int| 0 <= j < i + 1 && block_within(t, x as int, #[trigger] rs[j]);
                    if j < i {
                        assert(block_within_some(t, x as int, rs, i as int));
                    } else {
                        assert(lo <= x);
                        assert(x < hi);
                    }
                }
                if v@.contains(x) {
                    if block_within_some(t, x as int, rs, i as int) {
                        let j = choose|j: int| 0 <= j < i && block_within(t, x as int, #[trigger] rs[j]);
                        assert(block_within(t, x as int, rs[j]));
                    } else {
                        assert(block_within(t, x as int, rs[i as int]));
                    }
                }
            }
        }
        i += 1;
    }
    proof {
        assert forall|k: u32| v@.contains(k) <==> (k + 1 < t.len() && block_inside(t, k as int, rs)) by {
            if k + 1 < t.len() {
                lemma_inside_is_within(t, rs, k as int);
            }
            if v@.contains(k) {
                let j = choose|j: int| 0 <= j < rs.len() && block_within(t, k as int, #[trigger] rs[j]);
            }
        }
        lemma_class_complete(t, rs, v@);
    }
    v
}

} // verus!
