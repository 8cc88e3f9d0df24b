//! Sets of `u32` kept as strictly increasing vectors.

use vstd::prelude::*;

verus! {

/// Every element is smaller than the ones after it.
pub open spec fn strictly_increasing(s: Seq<u32>) -> bool {
    forall|i: int, j: int| 0 <= i < j < s.len() ==> s[i] < s[j]
}

/// In a strictly increasing sequence an element is at least as far from the
/// first as its index.
pub proof fn lemma_increasing_gap(s: Seq<u32>, i: int, j: int)
    requires
        strictly_increasing(s),
        0 <= i <= j < s.len(),
    ensures
        s[j] - s[i] >= j - i,
    decreases j - i,
{
    if i < j {
        lemma_increasing_gap(s, i, j - 1);
    }
}

/// Looks `x` up by bisection: `Ok` with its index, or `Err` with the index
/// at which it would have to be inserted.
pub fn find(v: &[u32], x: u32) -> (r: Result<usize, usize>)
    requires
        strictly_increasing(v@),
    ensures
        match r {
            Ok(i) => i < v@.len() && v@[i as int] == x,
            Err(i) => i <= v@.len() && !v@.contains(x) && (forall|k: int|
                0 <= k < i ==> v@[k] < x) && (forall|k: int| i <= k < v@.len() ==> x < v@[k]),
        },
{
    let mut lo: usize = 0;
    let mut hi: usize = v.len();
    while lo < hi
        invariant
            lo <= hi <= v@.len(),
            strictly_increasing(v@),
            forall|k: int| 0 <= k < lo ==> v@[k] < x,
            forall|k: int| hi <= k < v@.len() ==> x < v@[k],
        decreases hi - lo,
    {
        let mid = lo + (hi - lo) / 2;
        let y = v[mid];
        if y == x {
            return Ok(mid);
        } else if y < x {
            lo = mid + 1;
        } else {
            hi = mid;
        }
    }
    Err(lo)
}

/// Adds `x` to the set; says whether it was new.
pub fn insert(v: &mut Vec<u32>, x: u32) -> (added: bool)
    requires
        strictly_increasing(old(v)@),
    ensures
        strictly_increasing(final(v)@),
        forall|y: u32|
            #![trigger final(v)@.contains(y)]
            #![trigger old(v)@.contains(y)]
            final(v)@.contains(y) <==> (old(v)@.contains(y) || y == x),
        added == !old(v)@.contains(x),
        added ==> final(v)@.len() == old(v)@.len() + 1,
        !added ==> final(v)@ == old(v)@,
{
    match find(v.as_slice(), x) {
        Ok(_) => false,
        Err(pos) => {
            let ghost before = v@;
            v.insert(pos, x);
            proof {
                assert(v@ == before.insert(pos as int, x));
                assert forall|y: u32| v@.contains(y) <==> (before.contains(y) || y == x) by {
                    if v@.contains(y) {
                        let k = choose|k: int| 0 <= k < v@.len() && v@[k] == y;
                        if k < pos {
                            assert(before[k] == y);
                        } else if k > pos {
                            assert(before[k - 1] == y);
                        }
                    }
                    if before.contains(y) {
                        let k = choose|k: int| 0 <= k < before.len() && before[k] == y;
                        if k < pos {
                            assert(v@[k] == y);
                        } else {
                            assert(v@[k + 1] == y);
                        }
                    }
                    if y == x {
                        assert(v@[pos as int] == y);
                    }
                }
            }
            true
        },
    }
}

/// Whether `x` is in the set.
pub fn member(v: &[u32], x: u32) -> (b: bool)
    requires
        strictly_increasing(v@),
    ensures
        b == v@.contains(x),
{
    match find(v, x) {
        Ok(_) => true,
        Err(_) => false,
    }
}

/// Two strictly increasing sequences with the same elements are equal.
pub proof fn lemma_increasing_unique(a: Seq<u32>, b: Seq<u32>)
    requires
        strictly_increasing(a),
        strictly_increasing(b),
        forall|y: u32| a.contains(y) <==> b.contains(y),
    ensures
        a == b,
    decreases a.len(),
{
    if a.len() == 0 {
        if b.len() > 0 {
            assert(b.contains(b[0]));
        }
        assert(a =~= b);
    } else {
        let x = a.last();
        assert(a.contains(x));
        assert(b.contains(x));
        let j = choose|j: int| 0 <= j < b.len() && b[j] == x;
        if j < b.len() - 1 {
            let y = b.last();
            assert(b.contains(y));
            assert(a.contains(y));
            let i = choose|i: int| 0 <= i < a.len() && a[i] == y;
            assert(a[i] <= x);
        }
        let a0 = a.drop_last();
        let b0 = b.drop_last();
        assert forall|y: u32| a0.contains(y) <==> b0.contains(y) by {
            if a0.contains(y) {
                let i = choose|i: int| 0 <= i < a0.len() && a0[i] == y;
                assert(a[i] == y);
                assert(a.contains(y));
                let k = choose|k: int| 0 <= k < b.len() && b[k] == y;
                assert(b0[k] == y);
            }
            if b0.contains(y) {
                let i = choose|i: int| 0 <= i < b0.len() && b0[i] == y;
                assert(b[i] == y);
                assert(b.contains(y));
                let k = choose|k: int| 0 <= k < a.len() && a[k] == y;
                assert(a0[k] == y);
            }
        }
        lemma_increasing_unique(a0, b0);
        assert(a =~= a0.push(x));
        assert(b =~= b0.push(x));
    }
}

/// What a sequence holds after one more element.
pub proof fn lemma_contains_push<T>(s: Seq<T>, v: T, y: T)
    ensures
        s.push(v).contains(y) <==> (s.contains(y) || y == v),
{
    if s.push(v).contains(y) {
        let k = choose|k: int| 0 <= k < s.push(v).len() && s.push(v)[k] == y;
        if k < s.len() {
            assert(s[k] == y);
        }
    }
    if s.contains(y) {
        let k = choose|k: int| 0 <= k < s.len() && s[k] == y;
        assert(s.push(v)[k] == y);
    }
    if y == v {
        assert(s.push(v)[s.len() as int] == y);
    }
}

} // verus!
