//! Partition refinement: a partition of the numbers below `n` into sets,
//! kept in four parallel arrays: the elements set by set, the place of
//! every element, the set of every element, and the stretch of every set.

use vstd::prelude::*;
use crate::rlex::ordered::lemma_contains_push;
use crate::text::{decimal, push_char, push_decimal};

verus! {

/// The number of a set of a partition.
#[derive(Debug, Copy, Clone, PartialEq, Eq, Structural)]
pub struct SetIdx(pub u32);

impl SetIdx {
    /// The number itself.
    pub fn unwrap(self) -> (r: u32)
        ensures
            r == self.0,
    {
        self.0
    }
}

/// An element of the partitioned universe.
#[derive(Debug, Copy, Clone, PartialEq, Eq, Structural)]
pub struct Element(pub u32);

/// A stretch of the buffer of elements, from `start` up to, not including,
/// `end`. A set of a partition is such a stretch.
#[derive(Debug, Copy, Clone, PartialEq, Eq, Structural)]
pub struct Part {
    pub start: u32,
    pub end: u32,
}

impl Part {
    /// The two ends of the stretch as indices.
    pub fn as_range(self) -> (r: (usize, usize))
        ensures
            r.0 == self.start,
            r.1 == self.end,
    {
        (self.start as usize, self.end as usize)
    }

    /// The number of places of the stretch.
    pub fn len(self) -> (r: u32)
        ensures
            r == if self.start <= self.end {
                (self.end - self.start) as u32
            } else {
                0u32
            },
    {
        if self.start <= self.end {
            self.end - self.start
        } else {
            0
        }
    }

    /// Whether the stretch holds no place.
    pub fn is_empty(self) -> (r: bool)
        ensures
            r == (self.start >= self.end),
    {
        self.start >= self.end
    }

    /// Takes the first set of the partition `p` off the front of the
    /// stretch: returns the set of the element at `start`, and lets the
    /// stretch begin where that set ends.
    pub fn pop_set_according_to(&mut self, p: &Partitions) -> (s: SetIdx)
        requires
            p.wf(),
            old(self).start < p.size(),
        ensures
            s.0 < p.set_total(),
            s.0 == p.parent(p.buffer()[old(self).start as int] as int),
            final(self).start == p.parts()[s.0 as int].end,
            final(self).start > old(self).start,
            final(self).end == old(self).end,
    {
        let a = p.back_buffer[self.start as usize];
        let s = p.parent_set_of(Element(a));
        self.start = p.partitions[s.0 as usize].end;
        s
    }

    /// Whether every place of this stretch is one of `other`.
    pub fn is_subset_of(&self, other: &Self) -> (r: bool)
        ensures
            r == (self.start >= other.start && self.end <= other.end),
    {
        self.start >= other.start && self.end <= other.end
    }
}

/// A partition of the numbers below `n`.
pub struct Partitions {
    back_buffer: Vec<u32>,
    parent_set: Vec<u32>,
    positions: Vec<u32>,
    partitions: Vec<Part>,
}

/// `buffer` and `positions` are inverse to each other: the buffer holds
/// every element once, and `positions` says where.
pub open spec fn inverse(buffer: Seq<u32>, positions: Seq<u32>) -> bool {
    &&& buffer.len() == positions.len()
    &&& forall|i: int|
        0 <= i < buffer.len() ==> (#[trigger] buffer[i]) < buffer.len() && positions[buffer[i] as int] == i
    &&& forall|e: int|
        0 <= e < positions.len() ==> (#[trigger] positions[e]) < positions.len() && buffer[positions[e] as int] == e
}

/// Every place of every set holds an element of that set.
pub open spec fn sets_hold(buffer: Seq<u32>, parent: Seq<u32>, parts: Seq<Part>) -> bool {
    forall|s: int, i: int|
        #![trigger parts[s], buffer[i]]
        0 <= s < parts.len() && parts[s].start <= i < parts[s].end ==> parent[buffer[i] as int] == s
}

/// Every set is a stretch of the buffer.
pub open spec fn parts_within(parts: Seq<Part>, n: int) -> bool {
    forall|s: int| 0 <= s < parts.len() ==> (#[trigger] parts[s]).start <= parts[s].end <= n
}

/// Every element lies in the stretch of its set.
pub open spec fn elements_held(positions: Seq<u32>, parent: Seq<u32>, parts: Seq<Part>) -> bool {
    forall|e: int|
        0 <= e < parent.len() ==> (#[trigger] parent[e]) < parts.len() && parts[parent[e] as int].start
            <= positions[e] < parts[parent[e] as int].end
}

impl Partitions {
    /// The number of elements.
    pub closed spec fn size(&self) -> nat {
        self.back_buffer@.len()
    }

    /// The number of sets, empty ones included.
    pub closed spec fn set_total(&self) -> nat {
        self.partitions@.len()
    }

    /// The set of element `e`.
    pub closed spec fn parent(&self, e: int) -> u32 {
        self.parent_set@[e]
    }

    /// The set of every element.
    pub closed spec fn classes(&self) -> Seq<u32> {
        self.parent_set@
    }

    /// The elements, set by set.
    pub closed spec fn buffer(&self) -> Seq<u32> {
        self.back_buffer@
    }

    /// The stretch of the buffer that each set takes.
    pub closed spec fn parts(&self) -> Seq<Part> {
        self.partitions@
    }

    /// The elements of set `s`, in the order of the buffer.
    pub open spec fn members(&self, s: int) -> Seq<u32> {
        self.buffer().subrange(self.parts()[s].start as int, self.parts()[s].end as int)
    }

    /// The invariant of a partition: the buffer holds every element once,
    /// the sets are stretches of it, and each element lies in the stretch of
    /// its set.
    pub closed spec fn wf(&self) -> bool {
        &&& self.back_buffer@.len() <= u32::MAX
        &&& self.partitions@.len() <= u32::MAX
        &&& self.parent_set@.len() == self.back_buffer@.len()
        &&& inverse(self.back_buffer@, self.positions@)
        &&& parts_within(self.partitions@, self.back_buffer@.len() as int)
        &&& sets_hold(self.back_buffer@, self.parent_set@, self.partitions@)
        &&& elements_held(self.positions@, self.parent_set@, self.partitions@)
    }

    /// What the invariant says, for those who cannot see inside.
    pub proof fn lemma_wf(&self)
        requires
            self.wf(),
        ensures
            self.size() <= u32::MAX,
            self.set_total() <= u32::MAX,
            self.parts().len() == self.set_total(),
            self.buffer().len() == self.size(),
            self.classes().len() == self.size(),
            forall|e: int| 0 <= e < self.size() ==> #[trigger] self.classes()[e] == self.parent(e),
            forall|e: int| 0 <= e < self.size() ==> (#[trigger] self.parent(e)) < self.set_total(),
            forall|s: int|
                0 <= s < self.set_total() ==> (#[trigger] self.parts()[s]).start <= self.parts()[s].end
                    <= self.size(),
            forall|s: int, i: int|
                #![trigger self.parts()[s], self.buffer()[i]]
                0 <= s < self.set_total() && self.parts()[s].start <= i < self.parts()[s].end
                    ==> self.buffer()[i] < self.size() && self.parent(self.buffer()[i] as int) == s,
            forall|e: int|
                0 <= e < self.size() ==> self.members(#[trigger] self.parent(e) as int).contains(e as u32),
    {
        assert forall|e: int| 0 <= e < self.size() implies self.members(
            #[trigger] self.parent(e) as int,
        ).contains(e as u32) by {
            let i = self.positions@[e] as int;
            let part = self.partitions@[self.parent_set@[e] as int];
            assert(self.parent_set@[e] < self.partitions@.len());
            assert(part.start <= i < part.end);
            assert(self.buffer()[i] == e);
            assert(self.members(self.parent(e) as int)[i - part.start] == e as u32);
        }
    }

    /// The partition of the numbers below `n` into one set.
    pub fn new(n: u32) -> (r: Self)
        ensures
            r.wf(),
            r.size() == n,
            r.set_total() == 1,
            forall|e: int| 0 <= e < n ==> r.parent(e) == 0,
            n >= 1 ==> r.no_empty_set(),
            r.buffer() == Seq::new(n as nat, |i: int| i as u32),
            r.parts() == seq![(Part { start: 0, end: n })],
    {
        let mut back_buffer: Vec<u32> = Vec::new();
        let mut parent_set: Vec<u32> = Vec::new();
        let mut positions: Vec<u32> = Vec::new();
        let mut i: u32 = 0;
        while i < n
            invariant
                i <= n,
                back_buffer@.len() == i,
                parent_set@.len() == i,
                positions@.len() == i,
                forall|k: int| 0 <= k < i ==> back_buffer@[k] == k && positions@[k] == k && parent_set@[k] == 0,
            decreases n - i,
        {
            back_buffer.push(i);
            parent_set.push(0);
            positions.push(i);
            i += 1;
        }
        let mut partitions: Vec<Part> = Vec::new();
        partitions.push(Part { start: 0, end: n });
        proof {
            assert(back_buffer@ =~= Seq::new(n as nat, |i: int| i as u32));
            assert(partitions@ =~= seq![(Part { start: 0, end: n })]);
        }
        Partitions { back_buffer, parent_set, positions, partitions }
    }

    /// The number of sets.
    pub fn set_count(&self) -> (r: usize)
        ensures
            r == self.set_total(),
    {
        self.partitions.len()
    }

    /// The number of elements.
    pub fn element_count(&self) -> (r: usize)
        ensures
            r == self.size(),
    {
        self.back_buffer.len()
    }

    /// The stretch of set `s`.
    pub fn part(&self, s: SetIdx) -> (r: Part)
        requires
            s.0 < self.set_total(),
        ensures
            r == self.parts()[s.0 as int],
    {
        self.partitions[s.0 as usize]
    }

    /// The set of element `e`.
    pub fn parent_set_of(&self, e: Element) -> (s: SetIdx)
        requires
            self.wf(),
            e.0 < self.size(),
        ensures
            s.0 == self.parent(e.0 as int),
            s.0 < self.set_total(),
    {
        SetIdx(self.parent_set[e.0 as usize])
    }

    /// The place of element `e` in the buffer.
    pub fn position_of(&self, e: Element) -> (i: u32)
        requires
            self.wf(),
            e.0 < self.size(),
        ensures
            i < self.size(),
            self.buffer()[i as int] == e.0,
    {
        self.positions[e.0 as usize]
    }

    /// The elements of set `s`.
    pub fn set_iter(&self, s: SetIdx) -> (r: Vec<u32>)
        requires
            self.wf(),
            s.0 < self.set_total(),
        ensures
            r@ == self.members(s.0 as int),
            forall|k: int| 0 <= k < r@.len() ==> r@[k] < self.size() && self.parent(r@[k] as int) == s.0,
    {
        let part = self.partitions[s.0 as usize];
        let mut r: Vec<u32> = Vec::new();
        let mut i: usize = part.start as usize;
        proof {
            assert(self.partitions@[s.0 as int].start <= self.partitions@[s.0 as int].end);
            assert(r@ =~= self.buffer().subrange(part.start as int, part.start as int));
        }
        while i < part.end as usize
            invariant
                self.wf(),
                part == self.partitions@[s.0 as int],
                s.0 < self.partitions@.len(),
                part.start <= i <= part.end <= self.back_buffer@.len(),
                r@ == self.back_buffer@.subrange(part.start as int, i as int),
            decreases part.end - i,
        {
            r.push(self.back_buffer[i]);
            proof {
                assert(r@ =~= self.back_buffer@.subrange(part.start as int, i + 1));
            }
            i += 1;
        }
        proof {
            assert forall|k: int| 0 <= k < r@.len() implies r@[k] < self.size() && self.parent(r@[k] as int)
                == s.0 by {
                let i = part.start + k;
                assert(r@[k] == self.back_buffer@[i]);
                assert(self.parent_set@[self.back_buffer@[i] as int] == s.0);
            }
        }
        r
    }

    /// The elements of every set, set by set.
    pub fn sets(&self) -> (r: Vec<Vec<u32>>)
        requires
            self.wf(),
        ensures
            r@.len() == self.set_total(),
            forall|s: int| 0 <= s < r@.len() ==> (#[trigger] r@[s])@ == self.members(s),
    {
        let mut r: Vec<Vec<u32>> = Vec::new();
        let mut s: usize = 0;
        while s < self.partitions.len()
            invariant
                self.wf(),
                s <= self.partitions@.len(),
                r@.len() == s,
                forall|k: int| 0 <= k < s ==> (#[trigger] r@[k])@ == self.members(k),
            decreases self.partitions@.len() - s,
        {
            let one = self.set_iter(SetIdx(s as u32));
            r.push(one);
            s += 1;
        }
        r
    }
}

/// No number occurs twice in the sequence.
pub open spec fn distinct(s: Seq<u32>) -> bool {
    forall|i: int, j: int| 0 <= i < j < s.len() ==> s[i] != s[j]
}

/// The state of a partition `c` while it is refined: the elements of `done`
/// have been moved to the end of the stretch of their set, which was cut
/// short by them, and `affected` lists the sets that were cut short, each
/// with the end that it had in the partition `o` at the beginning.
pub closed spec fn marked(o: Partitions, c: Partitions, done: Seq<u32>, affected: Seq<(u32, u32)>) -> bool {
    let n = o.back_buffer@.len();
    &&& o.wf()
    &&& c.back_buffer@.len() == n
    &&& c.parent_set@ == o.parent_set@
    &&& c.partitions@.len() == o.partitions@.len()
    &&& inverse(c.back_buffer@, c.positions@)
    &&& forall|s: int|
        0 <= s < c.partitions@.len() ==> (#[trigger] c.partitions@[s]).start == o.partitions@[s].start
            && c.partitions@[s].start <= c.partitions@[s].end <= o.partitions@[s].end
    &&& sets_hold(c.back_buffer@, c.parent_set@, o.partitions@)
    &&& forall|e: int|
        0 <= e < n ==> (#[trigger] c.parent_set@[e]) < c.partitions@.len() && o.partitions@[c.parent_set@[e] as int].start
            <= c.positions@[e] < o.partitions@[c.parent_set@[e] as int].end && (c.positions@[e]
            >= c.partitions@[c.parent_set@[e] as int].end <==> done.contains(e as u32))
    &&& forall|k: int|
        0 <= k < affected.len() ==> (#[trigger] affected[k]).0 < c.partitions@.len() && affected[k].1
            == o.partitions@[affected[k].0 as int].end && c.partitions@[affected[k].0 as int].end < affected[k].1
    &&& forall|k: int, l: int| 0 <= k < l < affected.len() ==> (#[trigger] affected[k]).0 != (#[trigger] affected[l]).0
    &&& forall|s: int|
        0 <= s < c.partitions@.len() && (#[trigger] c.partitions@[s]).end < o.partitions@[s].end ==> exists|k: int|
            0 <= k < affected.len() && (#[trigger] affected[k]).0 == s
}

impl Partitions {
    /// Moves every element of `pivot` to the end of the stretch of its set
    /// and cuts the stretch short by it. Returns the sets that were cut
    /// short, each with the end that it had.
    fn mark(&mut self, pivot: &Vec<u32>) -> (affected: Vec<(u32, u32)>)
        requires
            old(self).wf(),
            distinct(pivot@),
            forall|i: int| 0 <= i < pivot@.len() ==> pivot@[i] < old(self).size(),
        ensures
            marked(*old(self), *final(self), pivot@, affected@),
            affected@.len() <= pivot@.len(),
    {
        let mut affected: Vec<(u32, u32)> = Vec::new();
        let ghost o = *self;
        let ghost n = self.back_buffer@.len();
        let mut k: usize = 0;
        proof {
            assert(pivot@.subrange(0, 0) =~= Seq::<u32>::empty());
            assert(marked(o, *self, pivot@.subrange(0, 0), affected@));
        }
        while k < pivot.len()
            invariant
                k <= pivot@.len(),
                o == *old(self),
                n == o.back_buffer@.len(),
                distinct(pivot@),
                forall|i: int| 0 <= i < pivot@.len() ==> pivot@[i] < n,
                marked(o, *self, pivot@.subrange(0, k as int), affected@),
                affected@.len() <= k,
            decreases pivot@.len() - k,
        {
            let ghost before = *self;
            let ghost done = pivot@.subrange(0, k as int);
            let ghost more = pivot@.subrange(0, k + 1);
            let ghost affected_before = affected@;
            let x = pivot[k];
            proof {
                assert(more =~= done.push(x));
                assert(!done.contains(x)) by {
                    if done.contains(x) {
                        let i = choose|i: int| 0 <= i < done.len() && done[i] == x;
                        assert(pivot@[i] == x);
                    }
                }
            }
            let s = self.parent_set[x as usize];
            let part = self.partitions[s as usize];
            let e = part.end;
            let pos = self.positions[x as usize];
            proof {
                assert(before.parent_set@[x as int] == s);
                assert(pos < e);
            }
            let touched = if (e as usize) < self.back_buffer.len() {
                let z = self.back_buffer[e as usize];
                self.parent_set[z as usize] == s
            } else {
                false
            };
            proof {
                if touched {
                    let z = before.back_buffer@[e as int];
                    assert(before.positions@[z as int] == e);
                    assert(before.parent_set@[z as int] == s);
                    assert(e < o.partitions@[s as int].end);
                } else {
                    if e < o.partitions@[s as int].end {
                        assert(sets_hold(before.back_buffer@, before.parent_set@, o.partitions@));
                        assert(o.partitions@[s as int].start <= e < o.partitions@[s as int].end);
                        let z = before.back_buffer@[e as int];
                        assert(before.parent_set@[z as int] == s);
                        assert(false);
                    }
                }
            }
            if !touched {
                affected.push((s, e));
            }
            let new_end = e - 1;
            let y = self.back_buffer[new_end as usize];
            self.back_buffer.set(pos as usize, y);
            self.back_buffer.set(new_end as usize, x);
            self.positions.set(x as usize, new_end);
            self.positions.set(y as usize, pos);
            self.partitions.set(s as usize, Part { start: part.start, end: new_end });
            proof {
                let bb0 = before.back_buffer@;
                let ps0 = before.positions@;
                let bb = self.back_buffer@;
                let ps = self.positions@;
                assert(bb0[new_end as int] == y);
                assert(ps0[y as int] == new_end);
                assert(o.partitions@[s as int].start <= pos);
                assert(before.parent_set@[y as int] == s) by {
                    assert(sets_hold(bb0, before.parent_set@, o.partitions@));
                    assert(o.partitions@[s as int].start <= new_end < o.partitions@[s as int].end);
                    assert(before.parent_set@[bb0[new_end as int] as int] == s);
                }
                assert(inverse(bb, ps)) by {
                    assert forall|i: int| 0 <= i < bb.len() implies (#[trigger] bb[i]) < bb.len() && ps[bb[i] as int]
                        == i by {
                        if i != pos && i != new_end {
                            assert(bb[i] == bb0[i]);
                            assert(ps0[bb0[i] as int] == i);
                        }
                    }
                    assert forall|z: int| 0 <= z < ps.len() implies (#[trigger] ps[z]) < ps.len() && bb[ps[z] as int]
                        == z by {
                        if z != x && z != y {
                            assert(ps[z] == ps0[z]);
                            assert(bb0[ps0[z] as int] == z);
                        }
                    }
                }
                assert(sets_hold(bb, self.parent_set@, o.partitions@)) by {
                    assert forall|t: int, i: int|
                        #![trigger o.partitions@[t], bb[i]]
                        0 <= t < o.partitions@.len() && o.partitions@[t].start <= i < o.partitions@[t].end
                            implies self.parent_set@[bb[i] as int] == t by {
                        assert(before.parent_set@[bb0[i] as int] == t);
                        if i == pos || i == new_end {
                            assert(before.parent_set@[bb0[pos as int] as int] == s);
                        }
                    }
                }
                assert forall|z: int| 0 <= z < n implies (#[trigger] self.parent_set@[z]) < self.partitions@.len()
                    && o.partitions@[self.parent_set@[z] as int].start <= ps[z] < o.partitions@[self.parent_set@[z] as int].end
                    && (ps[z] >= self.partitions@[self.parent_set@[z] as int].end <==> more.contains(z as u32)) by {
                    lemma_contains_push(done, x, z as u32);
                    let t = before.parent_set@[z];
                    assert(t < before.partitions@.len());
                    if z == x {
                    } else if z == y {
                        assert(!done.contains(y)) by {
                            assert(!(ps0[y as int] >= before.partitions@[s as int].end));
                        }
                    } else {
                        assert(ps[z] == ps0[z]);
                        if t == s {
                            assert(ps0[z] != new_end);
                        }
                    }
                }
                assert forall|i: int| 0 <= i < affected@.len() implies (#[trigger] affected@[i]).0
                    < self.partitions@.len() && affected@[i].1 == o.partitions@[affected@[i].0 as int].end
                    && self.partitions@[affected@[i].0 as int].end < affected@[i].1 by {
                    if i < affected_before.len() {
                        assert(affected@[i] == affected_before[i]);
                    }
                }
                assert forall|i: int, l: int| 0 <= i < l < affected@.len() implies (#[trigger] affected@[i]).0 != (
                #[trigger] affected@[l]).0 by {
                    assert(affected@[i] == affected_before[i]);
                    if l < affected_before.len() {
                        assert(affected@[l] == affected_before[l]);
                    } else {
                        assert(before.partitions@[affected_before[i].0 as int].end < affected_before[i].1);
                    }
                }
                assert forall|t: int|
                    0 <= t < self.partitions@.len() && (#[trigger] self.partitions@[t]).end < o.partitions@[t].end
                        implies exists|i: int| 0 <= i < affected@.len() && (#[trigger] affected@[i]).0 == t by {
                    if t == s {
                        if touched {
                            assert(before.partitions@[s as int].end < o.partitions@[s as int].end);
                            let i = choose|i: int|
                                0 <= i < affected_before.len() && (#[trigger] affected_before[i]).0 == s;
                            assert(affected@[i].0 == t);
                        } else {
                            assert(affected@[affected_before.len() as int].0 == t);
                        }
                    } else {
                        assert(self.partitions@[t] == before.partitions@[t]);
                        let i = choose|i: int|
                            0 <= i < affected_before.len() && (#[trigger] affected_before[i]).0 == t;
                        assert(affected@[i].0 == t);
                    }
                }
                assert forall|t: int| 0 <= t < self.partitions@.len() implies (#[trigger] self.partitions@[t]).start
                    == o.partitions@[t].start && self.partitions@[t].start <= self.partitions@[t].end
                    <= o.partitions@[t].end by {
                    if t != s {
                        assert(self.partitions@[t] == before.partitions@[t]);
                    }
                }
            }
            k += 1;
        }
        proof {
            assert(pivot@.subrange(0, pivot@.len() as int) =~= pivot@);
        }
        affected
    }
}

/// Set `s` is among the entries of `affected` from place `j` on.
pub open spec fn pending(affected: Seq<(u32, u32)>, j: int, s: int) -> bool {
    exists|k: int| j <= k < affected.len() && (#[trigger] affected[k]).0 == s
}

/// Set `s` is among the first `j` entries of `affected`.
pub open spec fn settled(affected: Seq<(u32, u32)>, j: int, s: int) -> bool {
    exists|k: int| 0 <= k < j && k < affected.len() && (#[trigger] affected[k]).0 == s
}

/// Every element that partition `o` has in set `s` is in `done`.
pub closed spec fn swallowed(o: Partitions, done: Seq<u32>, s: int) -> bool {
    forall|e: int| 0 <= e < o.parent_set@.len() && #[trigger] o.parent_set@[e] == s ==> done.contains(e as u32)
}

/// The state of a partition `c` while the sets that were cut short are
/// split: the first `j` entries of `affected` have been dealt with, and
/// `origin` says of each new set from which set it was split.
pub closed spec fn splitting(
    o: Partitions,
    c: Partitions,
    done: Seq<u32>,
    affected: Seq<(u32, u32)>,
    j: int,
    origin: Seq<u32>,
) -> bool {
    let n = o.back_buffer@.len();
    let count0 = o.partitions@.len();
    &&& o.wf()
    &&& 0 <= j <= affected.len()
    &&& c.back_buffer@.len() == n
    &&& c.parent_set@.len() == n
    &&& inverse(c.back_buffer@, c.positions@)
    &&& count0 + origin.len() == c.partitions@.len()
    &&& c.partitions@.len() <= u32::MAX
    &&& parts_within(c.partitions@, n as int)
    &&& sets_hold(c.back_buffer@, c.parent_set@, c.partitions@)
    &&& forall|k: int| 0 <= k < affected.len() ==> (#[trigger] affected[k]).0 < count0 && affected[k].1 <= n
    &&& forall|k: int, l: int| 0 <= k < l < affected.len() ==> (#[trigger] affected[k]).0 != (#[trigger] affected[l]).0
    &&& forall|k: int|
        j <= k < affected.len() ==> c.partitions@[(#[trigger] affected[k]).0 as int].end < affected[k].1
    &&& forall|k: int, i: int|
        #![trigger affected[k], c.back_buffer@[i]]
        j <= k < affected.len() && c.partitions@[affected[k].0 as int].start <= i < affected[k].1
            ==> c.parent_set@[c.back_buffer@[i] as int] == affected[k].0
    &&& forall|e: int|
        0 <= e < n ==> (#[trigger] c.parent_set@[e]) < c.partitions@.len() && c.partitions@[c.parent_set@[e] as int].start
            <= c.positions@[e] && (c.positions@[e] < c.partitions@[c.parent_set@[e] as int].end || exists|k: int|
            j <= k < affected.len() && (#[trigger] affected[k]).0 == c.parent_set@[e] && c.positions@[e]
                < affected[k].1)
    &&& forall|e: int|
        0 <= e < n && pending(affected, j, #[trigger] c.parent_set@[e] as int) ==> (c.positions@[e]
            >= c.partitions@[c.parent_set@[e] as int].end <==> done.contains(e as u32))
    &&& forall|e: int|
        0 <= e < n ==> if (#[trigger] c.parent_set@[e]) < count0 {
            c.parent_set@[e] == o.parent_set@[e]
        } else {
            origin[c.parent_set@[e] - count0] == o.parent_set@[e] && done.contains(e as u32)
        }
    &&& forall|a: int, b: int| 0 <= a < b < origin.len() ==> origin[a] != origin[b]
    &&& forall|a: int| 0 <= a < origin.len() ==> settled(affected, j, #[trigger] origin[a] as int)
    &&& forall|a: int| 0 <= a < origin.len() ==> !swallowed(o, done, #[trigger] origin[a] as int)
    &&& forall|e: int|
        0 <= e < n && done.contains(e as u32) && (#[trigger] c.parent_set@[e]) < count0 ==> pending(
            affected,
            j,
            c.parent_set@[e] as int,
        ) || swallowed(o, done, c.parent_set@[e] as int)
    &&& o.no_empty_set() ==> forall|s: int|
        0 <= s < c.partitions@.len() ==> (#[trigger] c.partitions@[s]).start < c.partitions@[s].end || pending(
            affected,
            j,
            s,
        )
}

/// Once every element of the pivot is moved, the splitting can begin.
proof fn lemma_marked_splitting(o: Partitions, c: Partitions, done: Seq<u32>, affected: Seq<(u32, u32)>)
    requires
        marked(o, c, done, affected),
    ensures
        splitting(o, c, done, affected, 0, Seq::empty()),
{
    let n = o.back_buffer@.len();
    assert(parts_within(c.partitions@, n as int)) by {
        assert forall|s: int| 0 <= s < c.partitions@.len() implies (#[trigger] c.partitions@[s]).start
            <= c.partitions@[s].end <= n by {
            assert(o.partitions@[s].end <= n);
        }
    }
    assert(sets_hold(c.back_buffer@, c.parent_set@, c.partitions@)) by {
        assert forall|s: int, i: int|
            #![trigger c.partitions@[s], c.back_buffer@[i]]
            0 <= s < c.partitions@.len() && c.partitions@[s].start <= i < c.partitions@[s].end
                implies c.parent_set@[c.back_buffer@[i] as int] == s by {
            assert(o.partitions@[s].start <= i < o.partitions@[s].end);
        }
    }
    assert forall|k: int| 0 <= k < affected.len() implies (#[trigger] affected[k]).0 < o.partitions@.len()
        && affected[k].1 <= n by {
        assert(o.partitions@[affected[k].0 as int].end <= n);
    }
    assert forall|k: int, i: int|
        #![trigger affected[k], c.back_buffer@[i]]
        0 <= k < affected.len() && c.partitions@[affected[k].0 as int].start <= i < affected[k].1
            implies c.parent_set@[c.back_buffer@[i] as int] == affected[k].0 by {
        let s = affected[k].0 as int;
        assert(o.partitions@[s].start <= i < o.partitions@[s].end);
    }
    assert forall|e: int| 0 <= e < n implies (#[trigger] c.parent_set@[e]) < c.partitions@.len()
        && c.partitions@[c.parent_set@[e] as int].start <= c.positions@[e] && (c.positions@[e]
        < c.partitions@[c.parent_set@[e] as int].end || exists|k: int|
        0 <= k < affected.len() && (#[trigger] affected[k]).0 == c.parent_set@[e] && c.positions@[e]
            < affected[k].1) by {
        let s = c.parent_set@[e] as int;
        if c.positions@[e] >= c.partitions@[s].end {
            assert(c.partitions@[s].end < o.partitions@[s].end);
            let k = choose|k: int| 0 <= k < affected.len() && (#[trigger] affected[k]).0 == s;
            assert(affected[k].1 == o.partitions@[s].end);
        }
    }
    assert forall|e: int|
        0 <= e < n && done.contains(e as u32) && (#[trigger] c.parent_set@[e]) < o.partitions@.len()
            implies pending(affected, 0, c.parent_set@[e] as int) || swallowed(
        o,
        done,
        c.parent_set@[e] as int,
    ) by {
        let s = c.parent_set@[e] as int;
        assert(c.positions@[e] >= c.partitions@[s].end);
        assert(c.partitions@[s].end < o.partitions@[s].end);
        let k = choose|k: int| 0 <= k < affected.len() && (#[trigger] affected[k]).0 == s;
    }
    if o.no_empty_set() {
        assert forall|s: int| 0 <= s < c.partitions@.len() implies (#[trigger] c.partitions@[s]).start
            < c.partitions@[s].end || pending(affected, 0, s) by {
            assert(o.parts()[s].start < o.parts()[s].end);
            if !(c.partitions@[s].start < c.partitions@[s].end) {
                assert(c.partitions@[s].end < o.partitions@[s].end);
                let k = choose|k: int| 0 <= k < affected.len() && (#[trigger] affected[k]).0 == s;
            }
        }
    }
}

/// When every set that was cut short is dealt with, the partition is in
/// order again, and it is the partition from before, refined by the pivot:
/// two elements are in one set exactly if they were and the pivot holds
/// both or neither.
proof fn lemma_splitting_done(o: Partitions, c: Partitions, done: Seq<u32>, affected: Seq<(u32, u32)>, origin: Seq<u32>)
    requires
        splitting(o, c, done, affected, affected.len() as int, origin),
    ensures
        c.wf(),
        c.size() == o.size(),
        c.set_total() >= o.set_total(),
        forall|a: int, b: int|
            0 <= a < o.size() && 0 <= b < o.size() ==> (#[trigger] c.parent(a) == #[trigger] c.parent(b) <==> (
            o.parent(a) == o.parent(b) && (done.contains(a as u32) <==> done.contains(b as u32)))),
        o.no_empty_set() ==> c.no_empty_set(),
        forall|a: int, b: int|
            #![trigger c.parent(a), o.parent(b)]
            0 <= a < o.size() && 0 <= b < o.size() && o.parent(a) == o.parent(b) && done.contains(a as u32)
                && !done.contains(b as u32) ==> c.parent(a) >= o.set_total(),
        c.set_total() == o.set_total() + origin.len(),
        forall|e: int|
            0 <= e < o.size() ==> if (#[trigger] c.parent(e)) < o.set_total() {
                c.parent(e) == o.parent(e)
            } else {
                origin[c.parent(e) - o.set_total()] == o.parent(e)
            },
        forall|a: int, b: int| 0 <= a < b < origin.len() ==> origin[a] != origin[b],
        forall|a: int| 0 <= a < origin.len() ==> (#[trigger] origin[a]) < o.set_total(),
{
    let n = o.back_buffer@.len();
    let count0 = o.partitions@.len();
    let m = affected.len() as int;
    if o.no_empty_set() {
        assert forall|s: int| 0 <= s < c.set_total() implies (#[trigger] c.parts()[s]).start < c.parts()[s].end by {
            assert(!pending(affected, m, s));
        }
    }
    assert forall|a: int, b: int|
        #![trigger c.parent(a), o.parent(b)]
        0 <= a < n && 0 <= b < n && o.parent(a) == o.parent(b) && done.contains(a as u32) && !done.contains(
            b as u32,
        ) implies c.parent(a) >= o.set_total() by {
        let pa = c.parent_set@[a];
        if pa < count0 {
            assert(!pending(affected, m, pa as int));
            assert(swallowed(o, done, pa as int));
            assert(o.parent_set@[a] == pa);
            assert(o.parent_set@[b] == pa);
        }
    }
    assert(elements_held(c.positions@, c.parent_set@, c.partitions@)) by {
        assert forall|e: int| 0 <= e < c.parent_set@.len() implies (#[trigger] c.parent_set@[e]) < c.partitions@.len()
            && c.partitions@[c.parent_set@[e] as int].start <= c.positions@[e] < c.partitions@[c.parent_set@[e] as int].end by {
        }
    }
    assert forall|a: int, b: int| 0 <= a < n && 0 <= b < n implies (#[trigger] c.parent(a) == #[trigger] c.parent(b)
        <==> (o.parent(a) == o.parent(b) && (done.contains(a as u32) <==> done.contains(b as u32)))) by {
        let pa = c.parent_set@[a];
        let pb = c.parent_set@[b];
        assert(!pending(affected, m, pa as int));
        assert(!pending(affected, m, pb as int));
        if pa == pb {
            if pa < count0 {
                if done.contains(a as u32) != done.contains(b as u32) {
                    assert(swallowed(o, done, pa as int));
                    assert(o.parent_set@[a] == pa);
                    assert(o.parent_set@[b] == pa);
                }
            }
        }
        if o.parent_set@[a] == o.parent_set@[b] && (done.contains(a as u32) <==> done.contains(b as u32)) {
            let s = o.parent_set@[a];
            if pa < count0 && pb >= count0 {
                assert(swallowed(o, done, pa as int));
                assert(!swallowed(o, done, origin[pb - count0] as int));
            } else if pb < count0 && pa >= count0 {
                assert(swallowed(o, done, pb as int));
                assert(!swallowed(o, done, origin[pa - count0] as int));
            } else if pa >= count0 && pb >= count0 {
                if pa != pb {
                    if pa < pb {
                        assert(origin[pa - count0] != origin[pb - count0]);
                    } else {
                        assert(origin[pb - count0] != origin[pa - count0]);
                    }
                }
            }
        }
    }
}

/// A set whose elements were all moved gets its old end back and stays as
/// it was.
proof fn lemma_step_restore(
    o: Partitions,
    c: Partitions,
    c2: Partitions,
    done: Seq<u32>,
    affected: Seq<(u32, u32)>,
    j: int,
    origin: Seq<u32>,
)
    requires
        splitting(o, c, done, affected, j, origin),
        0 <= j < affected.len(),
        c.partitions@[affected[j].0 as int].start == c.partitions@[affected[j].0 as int].end,
        c2.back_buffer@ == c.back_buffer@,
        c2.parent_set@ == c.parent_set@,
        c2.positions@ == c.positions@,
        c2.partitions@ == c.partitions@.update(
            affected[j].0 as int,
            Part { start: c.partitions@[affected[j].0 as int].start, end: affected[j].1 },
        ),
    ensures
        splitting(o, c2, done, affected, j + 1, origin),
{
    let n = o.back_buffer@.len();
    let count0 = o.partitions@.len();
    let a = affected[j].0 as int;
    let oe = affected[j].1;
    let st = c.partitions@[a].start;
    assert(affected[j].0 < count0);
    assert(pending(affected, j, a));
    assert forall|k: int| j + 1 <= k < affected.len() implies (#[trigger] affected[k]).0 != a by {
        assert(affected[j].0 != affected[k].0);
    }
    assert(parts_within(c2.partitions@, n as int)) by {
        assert forall|s: int| 0 <= s < c2.partitions@.len() implies (#[trigger] c2.partitions@[s]).start
            <= c2.partitions@[s].end <= n by {
            if s != a {
                assert(c2.partitions@[s] == c.partitions@[s]);
            }
        }
    }
    assert(sets_hold(c2.back_buffer@, c2.parent_set@, c2.partitions@)) by {
        assert forall|s: int, i: int|
            #![trigger c2.partitions@[s], c2.back_buffer@[i]]
            0 <= s < c2.partitions@.len() && c2.partitions@[s].start <= i < c2.partitions@[s].end
                implies c2.parent_set@[c2.back_buffer@[i] as int] == s by {
            if s != a {
                assert(c2.partitions@[s] == c.partitions@[s]);
                assert(c.parent_set@[c.back_buffer@[i] as int] == s);
            } else {
                assert(c.parent_set@[c.back_buffer@[i] as int] == affected[j].0);
            }
        }
    }
    assert forall|k: int| j + 1 <= k < affected.len() implies c2.partitions@[(#[trigger] affected[k]).0 as int].end
        < affected[k].1 by {
        assert(c2.partitions@[affected[k].0 as int] == c.partitions@[affected[k].0 as int]);
    }
    assert forall|k: int, i: int|
        #![trigger affected[k], c2.back_buffer@[i]]
        j + 1 <= k < affected.len() && c2.partitions@[affected[k].0 as int].start <= i < affected[k].1
            implies c2.parent_set@[c2.back_buffer@[i] as int] == affected[k].0 by {
        assert(c2.partitions@[affected[k].0 as int] == c.partitions@[affected[k].0 as int]);
        assert(c.parent_set@[c.back_buffer@[i] as int] == affected[k].0);
    }
    assert forall|e: int| 0 <= e < n implies (#[trigger] c2.parent_set@[e]) < c2.partitions@.len()
        && c2.partitions@[c2.parent_set@[e] as int].start <= c2.positions@[e] && (c2.positions@[e]
        < c2.partitions@[c2.parent_set@[e] as int].end || exists|k: int|
        j + 1 <= k < affected.len() && (#[trigger] affected[k]).0 == c2.parent_set@[e] && c2.positions@[e]
            < affected[k].1) by {
        let s = c.parent_set@[e] as int;
        assert(c.parent_set@[e] < c.partitions@.len());
        if s == a {
            if !(c.positions@[e] < c.partitions@[s].end) {
                let k = choose|k: int|
                    j <= k < affected.len() && (#[trigger] affected[k]).0 == c.parent_set@[e] && c.positions@[e]
                        < affected[k].1;
                assert(k == j);
            }
        } else {
            assert(c2.partitions@[s] == c.partitions@[s]);
            if !(c.positions@[e] < c.partitions@[s].end) {
                let k = choose|k: int|
                    j <= k < affected.len() && (#[trigger] affected[k]).0 == c.parent_set@[e] && c.positions@[e]
                        < affected[k].1;
                assert(k != j);
            }
        }
    }
    assert forall|e: int|
        0 <= e < n && pending(affected, j + 1, #[trigger] c2.parent_set@[e] as int) implies (c2.positions@[e]
        >= c2.partitions@[c2.parent_set@[e] as int].end <==> done.contains(e as u32)) by {
        let s = c2.parent_set@[e] as int;
        let k = choose|k: int| j + 1 <= k < affected.len() && (#[trigger] affected[k]).0 == s;
        assert(pending(affected, j, s));
        assert(s != a);
        assert(c2.partitions@[s] == c.partitions@[s]);
    }
    assert forall|x: int| 0 <= x < origin.len() implies settled(affected, j + 1, #[trigger] origin[x] as int) by {
        assert(settled(affected, j, origin[x] as int));
        let k = choose|k: int| 0 <= k < j && k < affected.len() && (#[trigger] affected[k]).0 == origin[x];
    }
    assert(swallowed(o, done, a)) by {
        assert forall|e: int| 0 <= e < o.parent_set@.len() && #[trigger] o.parent_set@[e] == a implies done.contains(
            e as u32,
        ) by {
            let p = c.parent_set@[e];
            if p >= count0 {
                assert(settled(affected, j, origin[p - count0] as int));
                let k = choose|k: int|
                    0 <= k < j && k < affected.len() && (#[trigger] affected[k]).0 == origin[p - count0];
                assert(affected[k].0 != affected[j].0);
            } else {
                assert(p == a);
                assert(c.partitions@[a].start <= c.positions@[e]);
            }
        }
    }
    assert forall|e: int|
        0 <= e < n && done.contains(e as u32) && (#[trigger] c2.parent_set@[e]) < count0 implies pending(
        affected,
        j + 1,
        c2.parent_set@[e] as int,
    ) || swallowed(o, done, c2.parent_set@[e] as int) by {
        let s = c2.parent_set@[e] as int;
        if s != a && !swallowed(o, done, s) {
            assert(pending(affected, j, s));
            let k = choose|k: int| j <= k < affected.len() && (#[trigger] affected[k]).0 == s;
            assert(k != j);
        }
    }
    if o.no_empty_set() {
        assert forall|s: int| 0 <= s < c2.partitions@.len() implies (#[trigger] c2.partitions@[s]).start
            < c2.partitions@[s].end || pending(affected, j + 1, s) by {
            if s != a {
                assert(c2.partitions@[s] == c.partitions@[s]);
                if !(c.partitions@[s].start < c.partitions@[s].end) {
                    assert(pending(affected, j, s));
                    let k = choose|k: int| j <= k < affected.len() && (#[trigger] affected[k]).0 == s;
                    assert(k != j);
                }
            }
        }
    }
}

/// A set of which some elements were moved and some were not is split: the
/// elements that were moved become a new set.
proof fn lemma_step_split(
    o: Partitions,
    c: Partitions,
    c2: Partitions,
    done: Seq<u32>,
    affected: Seq<(u32, u32)>,
    j: int,
    origin: Seq<u32>,
)
    requires
        splitting(o, c, done, affected, j, origin),
        0 <= j < affected.len(),
        c.partitions@[affected[j].0 as int].start < c.partitions@[affected[j].0 as int].end,
        c.partitions@.len() < u32::MAX,
        c2.back_buffer@ == c.back_buffer@,
        c2.positions@ == c.positions@,
        c2.partitions@ == c.partitions@.push(
            Part { start: c.partitions@[affected[j].0 as int].end, end: affected[j].1 },
        ),
        c2.parent_set@.len() == c.parent_set@.len(),
        forall|e: int|
            0 <= e < c.parent_set@.len() ==> #[trigger] c2.parent_set@[e] == if c.partitions@[affected[j].0 as int].end
                <= c.positions@[e] < affected[j].1 {
                c.partitions@.len() as u32
            } else {
                c.parent_set@[e]
            },
    ensures
        splitting(o, c2, done, affected, j + 1, origin.push(affected[j].0)),
{
    let n = o.back_buffer@.len();
    let count0 = o.partitions@.len();
    let a = affected[j].0 as int;
    let oe = affected[j].1;
    let st = c.partitions@[a].start;
    let mid = c.partitions@[a].end;
    let fresh = c.partitions@.len() as int;
    let origin2 = origin.push(affected[j].0);
    assert(affected[j].0 < count0);
    assert(pending(affected, j, a));
    assert(mid < oe);
    assert forall|k: int| j + 1 <= k < affected.len() implies (#[trigger] affected[k]).0 != a by {
        assert(affected[j].0 != affected[k].0);
    }
    // An element is relabelled exactly if it had parent `a` and lies at or after `mid`.
    assert forall|e: int| 0 <= e < n && mid <= c.positions@[e] < oe implies c.parent_set@[e] == a by {
        let i = c.positions@[e] as int;
        assert(c.back_buffer@[i] == e);
        assert(c.partitions@[affected[j].0 as int].start <= i < affected[j].1);
        assert(c.parent_set@[c.back_buffer@[i] as int] == affected[j].0);
    }
    assert(parts_within(c2.partitions@, n as int)) by {
        assert forall|s: int| 0 <= s < c2.partitions@.len() implies (#[trigger] c2.partitions@[s]).start
            <= c2.partitions@[s].end <= n by {
            if s < fresh {
                assert(c2.partitions@[s] == c.partitions@[s]);
            }
        }
    }
    assert(sets_hold(c2.back_buffer@, c2.parent_set@, c2.partitions@)) by {
        assert forall|s: int, i: int|
            #![trigger c2.partitions@[s], c2.back_buffer@[i]]
            0 <= s < c2.partitions@.len() && c2.partitions@[s].start <= i < c2.partitions@[s].end
                implies c2.parent_set@[c2.back_buffer@[i] as int] == s by {
            let e = c.back_buffer@[i] as int;
            assert(c.positions@[e] == i);
            if s < fresh {
                assert(c2.partitions@[s] == c.partitions@[s]);
                assert(c.parent_set@[c.back_buffer@[i] as int] == s);
                if mid <= i < oe {
                    assert(c.parent_set@[e] == a);
                }
            } else {
            }
        }
    }
    assert forall|k: int| j + 1 <= k < affected.len() implies c2.partitions@[(#[trigger] affected[k]).0 as int].end
        < affected[k].1 by {
        assert(c2.partitions@[affected[k].0 as int] == c.partitions@[affected[k].0 as int]);
    }
    assert forall|k: int, i: int|
        #![trigger affected[k], c2.back_buffer@[i]]
        j + 1 <= k < affected.len() && c2.partitions@[affected[k].0 as int].start <= i < affected[k].1
            implies c2.parent_set@[c2.back_buffer@[i] as int] == affected[k].0 by {
        assert(c2.partitions@[affected[k].0 as int] == c.partitions@[affected[k].0 as int]);
        assert(c.parent_set@[c.back_buffer@[i] as int] == affected[k].0);
        let e = c.back_buffer@[i] as int;
        assert(c.positions@[e] == i);
    }
    assert forall|e: int| 0 <= e < n implies (#[trigger] c2.parent_set@[e]) < c2.partitions@.len()
        && c2.partitions@[c2.parent_set@[e] as int].start <= c2.positions@[e] && (c2.positions@[e]
        < c2.partitions@[c2.parent_set@[e] as int].end || exists|k: int|
        j + 1 <= k < affected.len() && (#[trigger] affected[k]).0 == c2.parent_set@[e] && c2.positions@[e]
            < affected[k].1) by {
        let s = c.parent_set@[e] as int;
        assert(c.parent_set@[e] < c.partitions@.len());
        if mid <= c.positions@[e] < oe {
            assert(c2.parent_set@[e] == fresh);
        } else {
            assert(c2.parent_set@[e] == c.parent_set@[e]);
            assert(c2.partitions@[s] == c.partitions@[s]);
            if !(c.positions@[e] < c.partitions@[s].end) {
                let k = choose|k: int|
                    j <= k < affected.len() && (#[trigger] affected[k]).0 == c.parent_set@[e] && c.positions@[e]
                        < affected[k].1;
                if k == j {
                    assert(s == a);
                    assert(false);
                }
            }
        }
    }
    assert forall|e: int|
        0 <= e < n && pending(affected, j + 1, #[trigger] c2.parent_set@[e] as int) implies (c2.positions@[e]
        >= c2.partitions@[c2.parent_set@[e] as int].end <==> done.contains(e as u32)) by {
        let s = c2.parent_set@[e] as int;
        let k = choose|k: int| j + 1 <= k < affected.len() && (#[trigger] affected[k]).0 == s;
        assert(s < count0);
        assert(c2.parent_set@[e] == c.parent_set@[e]);
        assert(pending(affected, j, s));
        assert(s != a);
        assert(c2.partitions@[s] == c.partitions@[s]);
    }
    assert forall|e: int| 0 <= e < n implies if (#[trigger] c2.parent_set@[e]) < count0 {
        c2.parent_set@[e] == o.parent_set@[e]
    } else {
        origin2[c2.parent_set@[e] - count0] == o.parent_set@[e] && done.contains(e as u32)
    } by {
        if mid <= c.positions@[e] < oe {
            assert(c.parent_set@[e] == a);
            assert(origin2[fresh - count0] == affected[j].0);
            assert(c.positions@[e] >= c.partitions@[c.parent_set@[e] as int].end);
        } else {
            assert(c2.parent_set@[e] == c.parent_set@[e]);
            if c.parent_set@[e] >= count0 {
                assert(origin2[c.parent_set@[e] - count0] == origin[c.parent_set@[e] - count0]);
            }
        }
    }
    assert forall|x: int, y: int| 0 <= x < y < origin2.len() implies origin2[x] != origin2[y] by {
        if y == origin.len() {
            assert(settled(affected, j, origin[x] as int));
            let k = choose|k: int| 0 <= k < j && k < affected.len() && (#[trigger] affected[k]).0 == origin[x];
            assert(affected[k].0 != affected[j].0);
        }
    }
    assert forall|x: int| 0 <= x < origin2.len() implies settled(affected, j + 1, #[trigger] origin2[x] as int) by {
        if x < origin.len() {
            assert(origin2[x] == origin[x]);
            assert(settled(affected, j, origin[x] as int));
            let k = choose|k: int| 0 <= k < j && k < affected.len() && (#[trigger] affected[k]).0 == origin[x];
        } else {
            assert(affected[j].0 == origin2[x]);
        }
    }
    assert(!swallowed(o, done, a)) by {
        let e = c.back_buffer@[st as int] as int;
        assert(c.positions@[e] == st);
        assert(c.parent_set@[c.back_buffer@[st as int] as int] == a);
        assert(o.parent_set@[e] == a);
        assert(!done.contains(e as u32));
    }
    assert forall|x: int| 0 <= x < origin2.len() implies !swallowed(o, done, #[trigger] origin2[x] as int) by {
        if x < origin.len() {
            assert(origin2[x] == origin[x]);
        }
    }
    assert forall|e: int|
        0 <= e < n && done.contains(e as u32) && (#[trigger] c2.parent_set@[e]) < count0 implies pending(
        affected,
        j + 1,
        c2.parent_set@[e] as int,
    ) || swallowed(o, done, c2.parent_set@[e] as int) by {
        let s = c2.parent_set@[e] as int;
        assert(c2.parent_set@[e] == c.parent_set@[e]);
        if s == a {
            assert(c.positions@[e] >= mid);
            assert(c.positions@[e] < oe) by {
                if !(c.positions@[e] < c.partitions@[s].end) {
                    let k = choose|k: int|
                        j <= k < affected.len() && (#[trigger] affected[k]).0 == c.parent_set@[e]
                            && c.positions@[e] < affected[k].1;
                    assert(k == j);
                }
            }
            assert(false);
        } else if !swallowed(o, done, s) {
            assert(pending(affected, j, s));
            let k = choose|k: int| j <= k < affected.len() && (#[trigger] affected[k]).0 == s;
            assert(k != j);
        }
    }
    if o.no_empty_set() {
        assert forall|s: int| 0 <= s < c2.partitions@.len() implies (#[trigger] c2.partitions@[s]).start
            < c2.partitions@[s].end || pending(affected, j + 1, s) by {
            if s < fresh && s != a {
                assert(c2.partitions@[s] == c.partitions@[s]);
                if !(c.partitions@[s].start < c.partitions@[s].end) {
                    assert(pending(affected, j, s));
                    let k = choose|k: int| j <= k < affected.len() && (#[trigger] affected[k]).0 == s;
                    assert(k != j);
                }
            } else if s == a {
                assert(c2.partitions@[s] == c.partitions@[s]);
            }
        }
    }
}

/// Where every set held an element before the refinement began, a set that
/// is about to be split leaves room for one more: there are fewer sets than
/// elements.
proof fn lemma_split_room(
    o: Partitions,
    c: Partitions,
    done: Seq<u32>,
    affected: Seq<(u32, u32)>,
    j: int,
    origin: Seq<u32>,
)
    requires
        splitting(o, c, done, affected, j, origin),
        o.no_empty_set(),
        0 <= j < affected.len(),
        c.partitions@[affected[j].0 as int].start < c.partitions@[affected[j].0 as int].end,
    ensures
        c.partitions@.len() < o.back_buffer@.len(),
{
    let n = o.back_buffer@.len() as int;
    let k = c.partitions@.len() as int;
    let a = affected[j].0 as int;
    let mid = c.partitions@[a].end as int;
    assert(affected[j].0 < o.partitions@.len());
    assert(pending(affected, j, a));
    assert(c.partitions@[a].end < affected[j].1);
    // One element of each set, and of the set that is about to be split a second one.
    let firsts = Seq::new((k + 1) as nat, |s: int| if s < k {
        c.back_buffer@[c.partitions@[s].start as int] as int
    } else {
        c.back_buffer@[mid] as int
    });
    assert forall|s: int| 0 <= s < k implies (#[trigger] c.partitions@[s]).start < n && c.parent_set@[firsts[s]]
        == s by {
        let start = c.partitions@[s].start as int;
        if c.partitions@[s].start < c.partitions@[s].end {
            assert(c.partitions@[s].start <= c.partitions@[s].end <= n);
            assert(c.parent_set@[c.back_buffer@[start] as int] == s);
        } else {
            assert(pending(affected, j, s));
            let x = choose|x: int| j <= x < affected.len() && (#[trigger] affected[x]).0 == s;
            assert(c.partitions@[affected[x].0 as int].end < affected[x].1);
            assert(c.partitions@[s].start <= c.partitions@[s].end);
            assert(c.parent_set@[c.back_buffer@[start] as int] == affected[x].0);
        }
    }
    assert(c.parent_set@[c.back_buffer@[mid] as int] == affected[j].0);
    assert forall|s: int| 0 <= s < k + 1 implies 0 <= #[trigger] firsts[s] < n by {
        if s < k {
            assert(c.partitions@[s].start < n);
        }
    }
    assert forall|s: int, t: int| 0 <= s < t < k + 1 implies firsts[s] != firsts[t] by {
        if t < k {
            assert(c.parent_set@[firsts[s]] == s);
            assert(c.parent_set@[firsts[t]] == t);
        } else if s != a {
            assert(c.parent_set@[firsts[s]] == s);
        } else {
            let start = c.partitions@[a].start as int;
            assert(c.positions@[c.back_buffer@[start] as int] == start);
            assert(c.positions@[c.back_buffer@[mid] as int] == mid);
        }
    }
    lemma_pigeonhole(firsts, n);
}

impl Partitions {
    /// Gives the elements at the places from `from` up to `to` the set
    /// `fresh`.
    fn relabel(&mut self, from: u32, to: u32, fresh: u32)
        requires
            inverse(old(self).back_buffer@, old(self).positions@),
            old(self).parent_set@.len() == old(self).back_buffer@.len(),
            from <= to <= old(self).back_buffer@.len(),
        ensures
            final(self).back_buffer@ == old(self).back_buffer@,
            final(self).positions@ == old(self).positions@,
            final(self).partitions@ == old(self).partitions@,
            final(self).parent_set@.len() == old(self).parent_set@.len(),
            forall|e: int|
                0 <= e < old(self).parent_set@.len() ==> #[trigger] final(self).parent_set@[e] == if from
                    <= old(self).positions@[e] < to {
                    fresh
                } else {
                    old(self).parent_set@[e]
                },
    {
        let mut i: u32 = from;
        while i < to
            invariant
                from <= i <= to <= self.back_buffer@.len(),
                self.back_buffer@ == old(self).back_buffer@,
                self.positions@ == old(self).positions@,
                self.partitions@ == old(self).partitions@,
                self.parent_set@.len() == old(self).parent_set@.len(),
                self.parent_set@.len() == self.back_buffer@.len(),
                inverse(self.back_buffer@, self.positions@),
                forall|e: int|
                    0 <= e < self.parent_set@.len() ==> #[trigger] self.parent_set@[e] == if from
                        <= self.positions@[e] < i {
                        fresh
                    } else {
                        old(self).parent_set@[e]
                    },
            decreases to - i,
        {
            let e = self.back_buffer[i as usize];
            let ghost before = self.parent_set@;
            self.parent_set.set(e as usize, fresh);
            proof {
                assert(self.positions@[e as int] == i);
                assert forall|z: int| 0 <= z < self.parent_set@.len() implies #[trigger] self.parent_set@[z] == if from
                    <= self.positions@[z] < i + 1 {
                    fresh
                } else {
                    old(self).parent_set@[z]
                } by {
                    if z != e {
                        assert(self.parent_set@[z] == before[z]);
                        assert(self.back_buffer@[self.positions@[z] as int] == z);
                    }
                }
            }
            i += 1;
        }
    }

    /// Splits every set that was cut short, unless all its elements were
    /// moved: the elements that were moved make a new set. Returns, for
    /// each set that was split, its number and the number of the new set.
    fn split_marked(&mut self, affected: &Vec<(u32, u32)>, o: Ghost<Partitions>, done: Ghost<Seq<u32>>) -> (r: Vec<
        (u32, u32),
    >)
        requires
            marked(o@, *old(self), done@, affected@),
            o@.no_empty_set() || old(self).partitions@.len() + affected@.len() <= u32::MAX,
        ensures
            final(self).wf(),
            final(self).size() == o@.size(),
            final(self).set_total() == o@.set_total() + r@.len(),
            final(self).set_total() <= o@.set_total() + affected@.len(),
            forall|a: int, b: int|
                0 <= a < o@.size() && 0 <= b < o@.size() ==> (#[trigger] final(self).parent(a)
                    == #[trigger] final(self).parent(b) <==> (o@.parent(a) == o@.parent(b) && (done@.contains(
                    a as u32,
                ) <==> done@.contains(b as u32)))),
            o@.no_empty_set() ==> final(self).no_empty_set(),
            forall|i: int|
                0 <= i < r@.len() ==> (#[trigger] r@[i]).0 < o@.set_total() && r@[i].1 == o@.set_total() + i,
            forall|i: int, k: int| 0 <= i < k < r@.len() ==> (#[trigger] r@[i]).0 != (#[trigger] r@[k]).0,
            forall|i: int|
                0 <= i < r@.len() ==> final(self).parts()[(#[trigger] r@[i]).0 as int].start < final(
                    self).parts()[r@[i].0 as int].end && final(self).parts()[r@[i].1 as int].start < final(
                    self).parts()[r@[i].1 as int].end,
            forall|e: int|
                0 <= e < o@.size() ==> if (#[trigger] final(self).parent(e)) < o@.set_total() {
                    final(self).parent(e) == o@.parent(e)
                } else {
                    r@[final(self).parent(e) - o@.set_total()].0 == o@.parent(e)
                },
    {
        let mut pairs: Vec<(u32, u32)> = Vec::new();
        let ghost mut origin: Seq<u32> = Seq::empty();
        let ghost count0 = o@.partitions@.len();
        let mut j: usize = 0;
        proof {
            lemma_marked_splitting(o@, *self, done@, affected@);
        }
        while j < affected.len()
            invariant
                j <= affected@.len(),
                count0 == o@.partitions@.len(),
                splitting(o@, *self, done@, affected@, j as int, origin),
                o@.no_empty_set() || self.partitions@.len() + (affected@.len() - j) <= u32::MAX,
                origin.len() <= j,
                pairs@.len() == origin.len(),
                self.partitions@.len() == count0 + origin.len(),
                forall|i: int|
                    0 <= i < pairs@.len() ==> (#[trigger] pairs@[i]).0 == origin[i] && pairs@[i].0 < count0
                        && pairs@[i].1 == count0 + i,
                forall|i: int|
                    0 <= i < pairs@.len() ==> self.partitions@[(#[trigger] pairs@[i]).0 as int].start
                        < self.partitions@[pairs@[i].0 as int].end && self.partitions@[pairs@[i].1 as int].start
                        < self.partitions@[pairs@[i].1 as int].end,
                forall|i: int, k: int|
                    0 <= i < pairs@.len() && j <= k < affected@.len() ==> (#[trigger] pairs@[i]).0 != (
                    #[trigger] affected@[k]).0,
            decreases affected@.len() - j,
        {
            let ghost before = *self;
            let ghost pairs_before = pairs@;
            let (a, old_end) = affected[j];
            proof {
                self.lemma_splitting_facts(o@, done@, affected@, j as int, origin);
            }
            let part = self.partitions[a as usize];
            if part.start == part.end {
                self.partitions.set(a as usize, Part { start: part.start, end: old_end });
                proof {
                    lemma_step_restore(o@, before, *self, done@, affected@, j as int, origin);
                    assert forall|i: int| 0 <= i < pairs@.len() implies self.partitions@[(
                    #[trigger] pairs@[i]).0 as int].start < self.partitions@[pairs@[i].0 as int].end
                        && self.partitions@[pairs@[i].1 as int].start < self.partitions@[pairs@[i].1 as int].end by {
                        assert(pairs@[i].0 != affected@[j as int].0);
                        assert(self.partitions@[pairs@[i].0 as int] == before.partitions@[pairs@[i].0 as int]);
                        assert(self.partitions@[pairs@[i].1 as int] == before.partitions@[pairs@[i].1 as int]);
                    }
                }
            } else {
                proof {
                    if o@.no_empty_set() {
                        lemma_split_room(o@, before, done@, affected@, j as int, origin);
                        lemma_splitting_bounds(o@, before, done@, affected@, j as int, origin);
                    }
                }
                let fresh = self.partitions.len() as u32;
                let new_part = Part { start: part.end, end: old_end };
                self.partitions.push(new_part);
                let ghost middle = *self;
                self.relabel(part.end, old_end, fresh);
                proof {
                    lemma_step_split(o@, before, *self, done@, affected@, j as int, origin);
                    origin = origin.push(a);
                }
                pairs.push((a, fresh));
                proof {
                    assert forall|i: int| 0 <= i < pairs@.len() implies (#[trigger] pairs@[i]).0 == origin[i]
                        && pairs@[i].0 < count0 && pairs@[i].1 == count0 + i by {
                        if i < pairs_before.len() {
                            assert(pairs@[i] == pairs_before[i]);
                        }
                    }
                    assert forall|i: int| 0 <= i < pairs@.len() implies self.partitions@[(
                    #[trigger] pairs@[i]).0 as int].start < self.partitions@[pairs@[i].0 as int].end
                        && self.partitions@[pairs@[i].1 as int].start < self.partitions@[pairs@[i].1 as int].end by {
                        if i < pairs_before.len() {
                            assert(pairs@[i] == pairs_before[i]);
                            assert(self.partitions@[pairs@[i].0 as int] == before.partitions@[pairs@[i].0 as int]);
                            assert(self.partitions@[pairs@[i].1 as int] == before.partitions@[pairs@[i].1 as int]);
                        }
                    }
                    assert forall|i: int, k: int|
                        0 <= i < pairs@.len() && j + 1 <= k < affected@.len() implies (#[trigger] pairs@[i]).0 != (
                    #[trigger] affected@[k]).0 by {
                        if i < pairs_before.len() {
                            assert(pairs@[i] == pairs_before[i]);
                        } else {
                            assert(affected@[j as int].0 != affected@[k].0);
                        }
                    }
                }
            }
            j += 1;
        }
        proof {
            lemma_splitting_done(o@, *self, done@, affected@, origin);
            assert forall|i: int, k: int| 0 <= i < k < pairs@.len() implies (#[trigger] pairs@[i]).0 != (
            #[trigger] pairs@[k]).0 by {
                assert(origin[i] != origin[k]);
            }
        }
        pairs
    }

    /// What is known while sets are split: the sets that are still to be
    /// dealt with are sets of the partition as it was, cut short, and no
    /// two entries speak of the same set.
    proof fn lemma_splitting_facts(
        &self,
        o: Partitions,
        done: Seq<u32>,
        affected: Seq<(u32, u32)>,
        j: int,
        origin: Seq<u32>,
    )
        requires
            splitting(o, *self, done, affected, j, origin),
            0 <= j < affected.len(),
        ensures
            affected[j].0 < o.partitions@.len(),
            affected[j].0 < self.partitions@.len(),
            self.partitions@[affected[j].0 as int].end < affected[j].1,
            affected[j].1 <= self.back_buffer@.len(),
            self.partitions@[affected[j].0 as int].start <= self.partitions@[affected[j].0 as int].end,
            forall|k: int, l: int|
                0 <= k < l < affected.len() ==> (#[trigger] affected[k]).0 != (#[trigger] affected[l]).0,
    {
    }

    /// Refines the partition by the pivot: every set of which the pivot
    /// holds some elements, but not all, is split into those that it holds
    /// and those that it does not. The smaller of the two pieces keeps the
    /// number of the set, and the other gets a new number. Returns the
    /// pairs of the numbers of the pieces: the old number, and the new one.
    pub fn refine_pairs(&mut self, pivot: &Vec<u32>) -> (r: Vec<(u32, u32)>)
        requires
            old(self).wf(),
            distinct(pivot@),
            forall|i: int| 0 <= i < pivot@.len() ==> pivot@[i] < old(self).size(),
            old(self).no_empty_set() || old(self).set_total() + pivot@.len() <= u32::MAX,
        ensures
            final(self).wf(),
            final(self).size() == old(self).size(),
            final(self).set_total() == old(self).set_total() + r@.len(),
            final(self).set_total() <= old(self).set_total() + pivot@.len(),
            forall|a: int, b: int|
                0 <= a < old(self).size() && 0 <= b < old(self).size() ==> (#[trigger] final(self).parent(a)
                    == #[trigger] final(self).parent(b) <==> (old(self).parent(a) == old(self).parent(b) && (
                pivot@.contains(a as u32) <==> pivot@.contains(b as u32)))),
            old(self).no_empty_set() ==> final(self).no_empty_set(),
            forall|i: int|
                0 <= i < r@.len() ==> (#[trigger] r@[i]).0 < old(self).set_total() && r@[i].1 == old(
                    self).set_total() + i,
            forall|i: int, k: int| 0 <= i < k < r@.len() ==> (#[trigger] r@[i]).0 != (#[trigger] r@[k]).0,
            forall|i: int|
                0 <= i < r@.len() ==> 0 < final(self).parts()[(#[trigger] r@[i]).0 as int].end - final(
                    self).parts()[r@[i].0 as int].start <= final(self).parts()[r@[i].1 as int].end - final(
                    self).parts()[r@[i].1 as int].start,
            forall|e: int|
                0 <= e < old(self).size() ==> if (#[trigger] final(self).parent(e)) < old(self).set_total() {
                    final(self).parent(e) == old(self).parent(e)
                } else {
                    r@[final(self).parent(e) - old(self).set_total()].0 == old(self).parent(e)
                },
    {
        let ghost o = *self;
        let affected = self.mark(pivot);
        proof {
            lemma_marked_keeps_count(o, *self, pivot@, affected@);
        }
        let pairs = self.split_marked(&affected, Ghost(o), Ghost(pivot@));
        let ghost count0 = o.set_total();
        let mut k: usize = 0;
        proof {
            self.lemma_wf();
            o.lemma_wf();
        }
        while k < pairs.len()
            invariant
                k <= pairs@.len(),
                o.wf(),
                count0 == o.set_total(),
                self.wf(),
                self.size() == o.size(),
                self.set_total() == count0 + pairs@.len(),
                forall|a: int, b: int|
                    0 <= a < o.size() && 0 <= b < o.size() ==> (#[trigger] self.parent(a) == #[trigger] self.parent(b)
                        <==> (o.parent(a) == o.parent(b) && (pivot@.contains(a as u32) <==> pivot@.contains(
                        b as u32,
                    )))),
                o.no_empty_set() ==> self.no_empty_set(),
                forall|i: int| 0 <= i < pairs@.len() ==> (#[trigger] pairs@[i]).0 < count0 && pairs@[i].1 == count0 + i,
                forall|i: int, l: int| 0 <= i < l < pairs@.len() ==> (#[trigger] pairs@[i]).0 != (#[trigger] pairs@[l]).0,
                forall|i: int|
                    0 <= i < pairs@.len() ==> self.parts()[(#[trigger] pairs@[i]).0 as int].start
                        < self.parts()[pairs@[i].0 as int].end && self.parts()[pairs@[i].1 as int].start
                        < self.parts()[pairs@[i].1 as int].end,
                forall|i: int|
                    0 <= i < k ==> self.parts()[(#[trigger] pairs@[i]).0 as int].end - self.parts()[pairs@[i].0
                        as int].start <= self.parts()[pairs@[i].1 as int].end - self.parts()[pairs@[i].1
                        as int].start,
                forall|e: int|
                    0 <= e < o.size() ==> if (#[trigger] self.parent(e)) < count0 {
                        self.parent(e) == o.parent(e)
                    } else {
                        pairs@[self.parent(e) - count0].0 == o.parent(e)
                    },
            decreases pairs@.len() - k,
        {
            let ghost before = *self;
            let (a, f) = pairs[k];
            let kept = self.part(SetIdx(a));
            let made = self.part(SetIdx(f));
            proof {
                before.lemma_wf();
                assert(before.parts()[a as int].start <= before.parts()[a as int].end);
                assert(before.parts()[f as int].start <= before.parts()[f as int].end);
            }
            if made.len() < kept.len() {
                self.swap_sets(SetIdx(a), SetIdx(f));
                proof {
                    self.lemma_wf();
                    assert forall|x: int, y: int| 0 <= x < o.size() && 0 <= y < o.size() implies (
                    #[trigger] self.parent(x) == #[trigger] self.parent(y) <==> (o.parent(x) == o.parent(y) && (
                    pivot@.contains(x as u32) <==> pivot@.contains(y as u32)))) by {
                        assert(before.parent(x) == before.parent(y) <==> (o.parent(x) == o.parent(y) && (
                        pivot@.contains(x as u32) <==> pivot@.contains(y as u32))));
                    }
                    assert forall|i: int| 0 <= i < pairs@.len() implies self.parts()[(
                    #[trigger] pairs@[i]).0 as int].start < self.parts()[pairs@[i].0 as int].end
                        && self.parts()[pairs@[i].1 as int].start < self.parts()[pairs@[i].1 as int].end by {
                        if i != k {
                            assert(pairs@[i].0 != pairs@[k as int].0);
                        }
                    }
                    assert forall|i: int| 0 <= i < k + 1 implies self.parts()[(
                    #[trigger] pairs@[i]).0 as int].end - self.parts()[pairs@[i].0 as int].start
                        <= self.parts()[pairs@[i].1 as int].end - self.parts()[pairs@[i].1 as int].start by {
                        if i != k {
                            assert(pairs@[i].0 != pairs@[k as int].0);
                        }
                    }
                    assert forall|e: int| 0 <= e < o.size() implies if (#[trigger] self.parent(e)) < count0 {
                        self.parent(e) == o.parent(e)
                    } else {
                        pairs@[self.parent(e) - count0].0 == o.parent(e)
                    } by {
                        if before.parent(e) == a {
                            assert(o.parent(e) == a);
                        } else if before.parent(e) == f {
                            assert(pairs@[before.parent(e) - count0].0 == o.parent(e));
                        } else {
                            if before.parent(e) >= count0 {
                                before.lemma_wf();
                            }
                        }
                    }
                }
            }
            k += 1;
        }
        pairs
    }

    /// Refines the partition by the pivot: every set of which the pivot
    /// holds some elements, but not all, is split into those that it holds
    /// and those that it does not. The smaller of the two pieces keeps the
    /// number of the set, and the other gets a new number. Returns the new
    /// numbers.
    pub fn refine_with(&mut self, pivot: &Vec<u32>) -> (r: Vec<SetIdx>)
        requires
            old(self).wf(),
            distinct(pivot@),
            forall|i: int| 0 <= i < pivot@.len() ==> pivot@[i] < old(self).size(),
            old(self).no_empty_set() || old(self).set_total() + pivot@.len() <= u32::MAX,
        ensures
            final(self).wf(),
            final(self).size() == old(self).size(),
            final(self).set_total() == old(self).set_total() + r@.len(),
            final(self).set_total() <= old(self).set_total() + pivot@.len(),
            forall|a: int, b: int|
                0 <= a < old(self).size() && 0 <= b < old(self).size() ==> (#[trigger] final(self).parent(a)
                    == #[trigger] final(self).parent(b) <==> (old(self).parent(a) == old(self).parent(b) && (
                pivot@.contains(a as u32) <==> pivot@.contains(b as u32)))),
            old(self).no_empty_set() ==> final(self).no_empty_set(),
            forall|i: int| 0 <= i < r@.len() ==> (#[trigger] r@[i]).0 == old(self).set_total() + i,
            forall|e: int|
                0 <= e < old(self).size() ==> (#[trigger] final(self).parent(e)) == old(self).parent(e) || (
                final(self).parent(e) >= old(self).set_total() && 0 < final(self).parts()[old(self).parent(e)
                    as int].end - final(self).parts()[old(self).parent(e) as int].start <= final(
                    self).parts()[final(self).parent(e) as int].end - final(self).parts()[final(self).parent(e)
                    as int].start),
    {
        let pairs = self.refine_pairs(pivot);
        let mut formed: Vec<SetIdx> = Vec::new();
        let mut i: usize = 0;
        while i < pairs.len()
            invariant
                i <= pairs@.len(),
                formed@.len() == i,
                forall|k: int| 0 <= k < i ==> (#[trigger] formed@[k]).0 == pairs@[k].1,
            decreases pairs@.len() - i,
        {
            formed.push(SetIdx(pairs[i].1));
            i += 1;
        }
        proof {
            assert forall|e: int| 0 <= e < old(self).size() implies (#[trigger] self.parent(e)) == old(self).parent(e)
                || (self.parent(e) >= old(self).set_total() && 0 < self.parts()[old(self).parent(e) as int].end
                - self.parts()[old(self).parent(e) as int].start <= self.parts()[self.parent(e) as int].end
                - self.parts()[self.parent(e) as int].start) by {
                if self.parent(e) >= old(self).set_total() {
                    self.lemma_wf();
                    let i = self.parent(e) - old(self).set_total();
                    assert(pairs@[i].1 == self.parent(e));
                    assert(pairs@[i].0 == old(self).parent(e));
                }
            }
        }
        formed
    }
}

/// While sets are split, there are no more elements than a `u32` counts.
proof fn lemma_splitting_bounds(
    o: Partitions,
    c: Partitions,
    done: Seq<u32>,
    affected: Seq<(u32, u32)>,
    j: int,
    origin: Seq<u32>,
)
    requires
        splitting(o, c, done, affected, j, origin),
    ensures
        o.back_buffer@.len() <= u32::MAX,
{
}

/// Moving elements makes no set.
proof fn lemma_marked_keeps_count(o: Partitions, c: Partitions, done: Seq<u32>, affected: Seq<(u32, u32)>)
    requires
        marked(o, c, done, affected),
    ensures
        c.partitions@.len() == o.partitions@.len(),
        o.set_total() == o.partitions@.len(),
{
}

impl Partitions {
    /// Whether every set holds an element.
    pub open spec fn no_empty_set(&self) -> bool {
        forall|s: int| 0 <= s < self.set_total() ==> (#[trigger] self.parts()[s]).start < self.parts()[s].end
    }

    /// Takes the empty sets out and numbers the others anew, in their old
    /// order.
    pub fn simplify(&mut self)
        requires
            old(self).wf(),
        ensures
            final(self).wf(),
            final(self).size() == old(self).size(),
            final(self).set_total() <= old(self).set_total(),
            final(self).no_empty_set(),
            final(self).buffer() == old(self).buffer(),
            forall|a: int, b: int|
                0 <= a < old(self).size() && 0 <= b < old(self).size() ==> (#[trigger] final(self).parent(a)
                    == #[trigger] final(self).parent(b) <==> old(self).parent(a) == old(self).parent(b)),
            forall|a: int, b: int|
                0 <= a < old(self).size() && 0 <= b < old(self).size() ==> (#[trigger] final(self).parent(a)
                    < #[trigger] final(self).parent(b) <==> old(self).parent(a) < old(self).parent(b)),
    {
        let n = self.partitions.len();
        let mut idx_map: Vec<u32> = Vec::new();
        let mut kept: Vec<Part> = Vec::new();
        let ghost mut source: Seq<int> = Seq::empty();
        let mut k: usize = 0;
        while k < n
            invariant
                self.wf(),
                *self == *old(self),
                n == self.partitions@.len(),
                k <= n,
                idx_map@.len() == k,
                kept@.len() == source.len(),
                kept@.len() <= k,
                forall|x: int| 0 <= x < source.len() ==> 0 <= #[trigger] source[x] < k && kept@[x] == self.partitions@[source[x]]
                    && idx_map@[source[x]] == x && kept@[x].start < kept@[x].end,
                forall|x: int, y: int| 0 <= x < y < source.len() ==> source[x] < source[y],
                forall|i: int|
                    0 <= i < k && self.partitions@[i].start < self.partitions@[i].end ==> (#[trigger] idx_map@[i])
                        < source.len() && source[idx_map@[i] as int] == i,
            decreases n - k,
        {
            let part = self.partitions[k];
            let ghost kept_before = kept@;
            let ghost map_before = idx_map@;
            let ghost source_before = source;
            if part.start < part.end {
                idx_map.push(kept.len() as u32);
                kept.push(part);
                proof {
                    source = source.push(k as int);
                }
            } else {
                idx_map.push(0);
            }
            proof {
                assert forall|x: int| 0 <= x < source.len() implies 0 <= #[trigger] source[x] < k + 1 && kept@[x]
                    == self.partitions@[source[x]] && idx_map@[source[x]] == x && kept@[x].start < kept@[x].end by {
                    if x < source_before.len() {
                        assert(source[x] == source_before[x]);
                        assert(kept@[x] == kept_before[x]);
                        assert(idx_map@[source[x]] == map_before[source_before[x]]);
                    }
                }
                assert forall|i: int|
                    0 <= i < k + 1 && self.partitions@[i].start < self.partitions@[i].end implies (
                #[trigger] idx_map@[i]) < source.len() && source[idx_map@[i] as int] == i by {
                    if i < k {
                        assert(idx_map@[i] == map_before[i]);
                        assert(source[map_before[i] as int] == source_before[map_before[i] as int]);
                    }
                }
            }
            k += 1;
        }
        let ghost old_parent = self.parent_set@;
        let ghost old_parts = self.partitions@;
        let mut e: usize = 0;
        while e < self.parent_set.len()
            invariant
                e <= self.parent_set@.len(),
                old(self).wf(),
                old_parent == old(self).parent_set@,
                old_parts == old(self).partitions@,
                idx_map@.len() == old_parts.len(),
                self.back_buffer@ == old(self).back_buffer@,
                self.positions@ == old(self).positions@,
                self.parent_set@.len() == old_parent.len(),
                forall|z: int| 0 <= z < e ==> self.parent_set@[z] == idx_map@[old_parent[z] as int],
                forall|z: int| e <= z < old_parent.len() ==> self.parent_set@[z] == old_parent[z],
            decreases self.parent_set@.len() - e,
        {
            let s = self.parent_set[e];
            proof {
                assert(old_parent[e as int] < old_parts.len());
            }
            let t = idx_map[s as usize];
            self.parent_set.set(e, t);
            e += 1;
        }
        self.partitions = kept;
        proof {
            let bb = self.back_buffer@;
            let n_el = bb.len();
            assert(parts_within(self.partitions@, n_el as int)) by {
                assert forall|x: int| 0 <= x < self.partitions@.len() implies (#[trigger] self.partitions@[x]).start
                    <= self.partitions@[x].end <= n_el by {
                    assert(self.partitions@[x] == old_parts[source[x]]);
                }
            }
            assert(sets_hold(bb, self.parent_set@, self.partitions@)) by {
                assert forall|x: int, i: int|
                    #![trigger self.partitions@[x], bb[i]]
                    0 <= x < self.partitions@.len() && self.partitions@[x].start <= i < self.partitions@[x].end
                        implies self.parent_set@[bb[i] as int] == x by {
                    let src = source[x];
                    assert(self.partitions@[x] == old_parts[src]);
                    assert(old_parts[src].start <= i < old_parts[src].end);
                    assert(old_parent[bb[i] as int] == src);
                }
            }
            assert(elements_held(self.positions@, self.parent_set@, self.partitions@)) by {
                assert forall|z: int| 0 <= z < self.parent_set@.len() implies (#[trigger] self.parent_set@[z])
                    < self.partitions@.len() && self.partitions@[self.parent_set@[z] as int].start
                    <= self.positions@[z] < self.partitions@[self.parent_set@[z] as int].end by {
                    let src = old_parent[z] as int;
                    assert(old_parent[z] < old_parts.len());
                    assert(old_parts[src].start <= self.positions@[z] < old_parts[src].end);
                    assert(source[idx_map@[src] as int] == src);
                }
            }
            assert forall|a: int, b: int| 0 <= a < n_el && 0 <= b < n_el implies (#[trigger] self.parent(a)
                == #[trigger] self.parent(b) <==> old(self).parent(a) == old(self).parent(b)) by {
                let sa = old_parent[a] as int;
                let sb = old_parent[b] as int;
                assert(old_parent[a] < old_parts.len());
                assert(old_parent[b] < old_parts.len());
                assert(old_parts[sa].start <= self.positions@[a] < old_parts[sa].end);
                assert(old_parts[sb].start <= self.positions@[b] < old_parts[sb].end);
                assert(source[idx_map@[sa] as int] == sa);
                assert(source[idx_map@[sb] as int] == sb);
            }
            assert forall|a: int, b: int| 0 <= a < n_el && 0 <= b < n_el implies (#[trigger] self.parent(a)
                < #[trigger] self.parent(b) <==> old(self).parent(a) < old(self).parent(b)) by {
                let sa = old_parent[a] as int;
                let sb = old_parent[b] as int;
                assert(old_parent[a] < old_parts.len());
                assert(old_parent[b] < old_parts.len());
                assert(old_parts[sa].start <= self.positions@[a] < old_parts[sa].end);
                assert(old_parts[sb].start <= self.positions@[b] < old_parts[sb].end);
                assert(source[idx_map@[sa] as int] == sa);
                assert(source[idx_map@[sb] as int] == sb);
                let ia = idx_map@[sa] as int;
                let ib = idx_map@[sb] as int;
                if ia < ib {
                    assert(source[ia] < source[ib]);
                }
                if ib < ia {
                    assert(source[ib] < source[ia]);
                }
            }
            assert forall|x: int| 0 <= x < self.set_total() implies (#[trigger] self.parts()[x]).start
                < self.parts()[x].end by {
                assert(0 <= source[x]);
            }
        }
    }

    /// Lets set `a` and set `b` change their numbers.
    pub fn swap_sets(&mut self, a: SetIdx, b: SetIdx)
        requires
            old(self).wf(),
            a.0 < old(self).set_total(),
            b.0 < old(self).set_total(),
        ensures
            final(self).wf(),
            final(self).size() == old(self).size(),
            final(self).set_total() == old(self).set_total(),
            final(self).buffer() == old(self).buffer(),
            final(self).parts() == old(self).parts().update(a.0 as int, old(self).parts()[b.0 as int]).update(
                b.0 as int,
                old(self).parts()[a.0 as int],
            ),
            forall|e: int|
                0 <= e < old(self).size() ==> #[trigger] final(self).parent(e) == if old(self).parent(e) == b.0 {
                    a.0
                } else if old(self).parent(e) == a.0 {
                    b.0
                } else {
                    old(self).parent(e)
                },
            old(self).no_empty_set() ==> final(self).no_empty_set(),
    {
        if a.0 == b.0 {
            proof {
                assert(self.parts() =~= self.parts().update(a.0 as int, self.parts()[b.0 as int]).update(
                    b.0 as int,
                    self.parts()[a.0 as int],
                ));
            }
            return ;
        }
        let pa = self.partitions[a.0 as usize];
        let pb = self.partitions[b.0 as usize];
        proof {
            assert(self.partitions@[a.0 as int].start <= self.partitions@[a.0 as int].end);
            assert(self.partitions@[b.0 as int].start <= self.partitions@[b.0 as int].end);
        }
        self.partitions.set(a.0 as usize, pb);
        self.partitions.set(b.0 as usize, pa);
        self.relabel(pa.start, pa.end, b.0);
        let ghost middle = self.parent_set@;
        self.relabel(pb.start, pb.end, a.0);
        proof {
            let bb = self.back_buffer@;
            let ps = self.positions@;
            let old_parent = old(self).parent_set@;
            let old_parts = old(self).partitions@;
            let n_el = bb.len();
            assert forall|e: int| 0 <= e < n_el implies #[trigger] self.parent_set@[e] == if old_parent[e] == b.0 {
                a.0
            } else if old_parent[e] == a.0 {
                b.0
            } else {
                old_parent[e]
            } by {
                let s = old_parent[e] as int;
                assert(old_parent[e] < old_parts.len());
                assert(old_parts[s].start <= ps[e] < old_parts[s].end);
                assert(bb[ps[e] as int] == e);
                if pa.start <= ps[e] < pa.end {
                    assert(old_parent[bb[ps[e] as int] as int] == a.0);
                }
                if pb.start <= ps[e] < pb.end {
                    assert(old_parent[bb[ps[e] as int] as int] == b.0);
                }
                assert(self.parent_set@[e] == if pb.start <= ps[e] < pb.end {
                    a.0
                } else {
                    middle[e]
                });
            }
            assert(parts_within(self.partitions@, n_el as int)) by {
                assert forall|x: int| 0 <= x < self.partitions@.len() implies (#[trigger] self.partitions@[x]).start
                    <= self.partitions@[x].end <= n_el by {
                    if x != a.0 && x != b.0 {
                        assert(self.partitions@[x] == old_parts[x]);
                    }
                }
            }
            assert(sets_hold(bb, self.parent_set@, self.partitions@)) by {
                assert forall|x: int, i: int|
                    #![trigger self.partitions@[x], bb[i]]
                    0 <= x < self.partitions@.len() && self.partitions@[x].start <= i < self.partitions@[x].end
                        implies self.parent_set@[bb[i] as int] == x by {
                    let src = if x == a.0 {
                        b.0 as int
                    } else if x == b.0 {
                        a.0 as int
                    } else {
                        x
                    };
                    assert(self.partitions@[x] == old_parts[src]);
                    assert(old_parent[bb[i] as int] == src);
                }
            }
            assert(elements_held(ps, self.parent_set@, self.partitions@)) by {
                assert forall|z: int| 0 <= z < self.parent_set@.len() implies (#[trigger] self.parent_set@[z])
                    < self.partitions@.len() && self.partitions@[self.parent_set@[z] as int].start <= ps[z]
                    < self.partitions@[self.parent_set@[z] as int].end by {
                    let s = old_parent[z] as int;
                    assert(old_parent[z] < old_parts.len());
                    assert(old_parts[s].start <= ps[z] < old_parts[s].end);
                }
            }
            assert(self.parts() =~= old(self).parts().update(a.0 as int, old(self).parts()[b.0 as int]).update(
                b.0 as int,
                old(self).parts()[a.0 as int],
            ));
            if old(self).no_empty_set() {
                assert forall|x: int| 0 <= x < self.set_total() implies (#[trigger] self.parts()[x]).start
                    < self.parts()[x].end by {
                    let src = if x == a.0 {
                        b.0 as int
                    } else if x == b.0 {
                        a.0 as int
                    } else {
                        x
                    };
                    assert(self.partitions@[x] == old_parts[src]);
                    assert(old(self).parts()[src].start < old(self).parts()[src].end);
                }
            }
        }
    }

    /// Lets set `n` and set 0 change their numbers.
    pub fn promote_to_head(&mut self, n: SetIdx)
        requires
            old(self).wf(),
            n.0 < old(self).set_total(),
        ensures
            final(self).wf(),
            final(self).size() == old(self).size(),
            final(self).set_total() == old(self).set_total(),
            final(self).buffer() == old(self).buffer(),
            forall|e: int|
                0 <= e < old(self).size() ==> #[trigger] final(self).parent(e) == if old(self).parent(e) == n.0 {
                    0u32
                } else if old(self).parent(e) == 0 {
                    n.0
                } else {
                    old(self).parent(e)
                },
            old(self).no_empty_set() ==> final(self).no_empty_set(),
    {
        self.swap_sets(SetIdx(0), n);
    }
}

/// Sets that each hold an element are no more than there are elements.
pub proof fn lemma_count_bound(p: Partitions)
    requires
        p.wf(),
        p.no_empty_set(),
    ensures
        p.set_total() <= p.size(),
{
    let n = p.back_buffer@.len() as int;
    let k = p.partitions@.len() as int;
    let firsts = Seq::new(k as nat, |s: int| p.back_buffer@[p.partitions@[s].start as int] as int);
    assert forall|s: int| 0 <= s < k implies 0 <= #[trigger] firsts[s] < n by {
        assert(p.parts()[s].start < p.parts()[s].end);
    }
    assert forall|s: int, t: int| 0 <= s < t < k implies firsts[s] != firsts[t] by {
        assert(p.parts()[s].start < p.parts()[s].end);
        assert(p.parts()[t].start < p.parts()[t].end);
        let i = p.partitions@[s].start as int;
        let j = p.partitions@[t].start as int;
        assert(p.parent_set@[p.back_buffer@[i] as int] == s);
        assert(p.parent_set@[p.back_buffer@[j] as int] == t);
    }
    lemma_pigeonhole(firsts, n);
}

/// Numbers below `n` of which no two are the same are `n` at most.
pub proof fn lemma_pigeonhole(s: Seq<int>, n: int)
    requires
        n >= 0,
        forall|i: int| 0 <= i < s.len() ==> 0 <= #[trigger] s[i] < n,
        forall|i: int, j: int| 0 <= i < j < s.len() ==> s[i] != s[j],
    ensures
        s.len() <= n,
    decreases n,
{
    if s.len() > 0 {
        if n == 0 {
            assert(0 <= s[0] < n);
        } else {
            // Take the place of `n - 1` out, if it is there: what is left
            // lies below `n - 1`.
            if exists|i: int| 0 <= i < s.len() && s[i] == n - 1 {
                let i = choose|i: int| 0 <= i < s.len() && s[i] == n - 1;
                let rest = s.remove(i);
                assert forall|k: int| 0 <= k < rest.len() implies 0 <= #[trigger] rest[k] < n - 1 by {
                    if k < i {
                        assert(rest[k] == s[k]);
                        assert(s[k] != s[i]);
                    } else {
                        assert(rest[k] == s[k + 1]);
                        assert(s[i] != s[k + 1]);
                    }
                }
                assert forall|a: int, b: int| 0 <= a < b < rest.len() implies rest[a] != rest[b] by {
                    let x = if a < i { a } else { a + 1 };
                    let y = if b < i { b } else { b + 1 };
                    assert(rest[a] == s[x]);
                    assert(rest[b] == s[y]);
                    assert(s[x] != s[y]);
                }
                lemma_pigeonhole(rest, n - 1);
            } else {
                assert forall|k: int| 0 <= k < s.len() implies 0 <= #[trigger] s[k] < n - 1 by {
                    assert(0 <= s[k] < n);
                }
                lemma_pigeonhole(s, n - 1);
            }
        }
    }
}


/// The decimal forms of the first `n` of the numbers, with a space between.
pub open spec fn spaced_text(v: Seq<u32>, n: nat) -> Seq<char>
    decreases n,
{
    if n == 0 || n > v.len() {
        Seq::empty()
    } else if n == 1 {
        decimal(v[0] as nat)
    } else {
        spaced_text(v, (n - 1) as nat) + seq![' '] + decimal(v[n - 1] as nat)
    }
}

/// The sets from place `last` of the buffer on: each between brackets,
/// its elements with spaces between, and a space between the sets.
pub open spec fn sets_text(buffer: Seq<u32>, classes: Seq<u32>, parts: Seq<Part>, last: nat) -> Seq<char>
    decreases buffer.len() - last,
{
    if last >= buffer.len() {
        Seq::empty()
    } else {
        let part = parts[classes[buffer[last as int] as int] as int];
        let lead = if last == 0 {
            Seq::<char>::empty()
        } else {
            seq![' ']
        };
        let set = seq!['['] + spaced_text(
            buffer.subrange(part.start as int, part.end as int),
            (part.end - part.start) as nat,
        ) + seq![']'];
        if last < part.end <= buffer.len() {
            lead + set + sets_text(buffer, classes, parts, part.end as nat)
        } else {
            lead + set
        }
    }
}

impl Partitions {
    /// The partition as text: its sets in the order of the buffer, and a
    /// line break at the end.
    pub open spec fn dump_text(&self) -> Seq<char> {
        sets_text(self.buffer(), self.classes(), self.parts(), 0) + seq!['\n']
    }

    /// The partition as text, for a look at it.
    pub fn dump(&self) -> (text: String)
        requires
            self.wf(),
        ensures
            text@ == self.dump_text(),
    {
        let mut text = String::new();
        let mut last: usize = 0;
        let ghost buffer = self.back_buffer@;
        let ghost classes = self.parent_set@;
        let ghost parts = self.partitions@;
        proof {
            assert(text@ + sets_text(buffer, classes, parts, 0) =~= sets_text(buffer, classes, parts, 0));
        }
        while last < self.back_buffer.len()
            invariant
                self.wf(),
                buffer == self.back_buffer@,
                classes == self.parent_set@,
                parts == self.partitions@,
                last <= buffer.len(),
                sets_text(buffer, classes, parts, 0) == text@ + sets_text(buffer, classes, parts, last as nat),
            decreases buffer.len() - last,
        {
            let ghost before = text@;
            let e = self.back_buffer[last] as usize;
            let p = self.parent_set[e] as usize;
            let part = self.partitions[p];
            proof {
                assert(buffer[last as int] < buffer.len());
                assert(self.positions@[e as int] == last);
                assert(parts[classes[e as int] as int].start <= self.positions@[e as int] < parts[classes[e as int]
                    as int].end);
                assert(part.end <= buffer.len());
            }
            if last != 0 {
                push_char(&mut text, ' ');
            }
            push_char(&mut text, '[');
            let ghost opened = text@;
            let ghost members = buffer.subrange(part.start as int, part.end as int);
            let mut i: usize = part.start as usize;
            proof {
                assert(text@ =~= opened + spaced_text(members, 0));
            }
            while i < part.end as usize
                invariant
                    self.wf(),
                    buffer == self.back_buffer@,
                    part.start <= i <= part.end <= buffer.len(),
                    members == buffer.subrange(part.start as int, part.end as int),
                    text@ == opened + spaced_text(members, (i - part.start) as nat),
                decreases part.end - i,
            {
                if i != part.start as usize {
                    push_char(&mut text, ' ');
                }
                push_decimal(&mut text, self.back_buffer[i] as u64);
                proof {
                    assert(members[i - part.start] == buffer[i as int]);
                    assert(text@ =~= opened + spaced_text(members, (i + 1 - part.start) as nat));
                }
                i += 1;
            }
            push_char(&mut text, ']');
            proof {
                let lead = if last == 0 {
                    Seq::<char>::empty()
                } else {
                    seq![' ']
                };
                let set = seq!['['] + spaced_text(members, (part.end - part.start) as nat) + seq![']'];
                assert(text@ =~= before + lead + set);
                let rest = sets_text(buffer, classes, parts, part.end as nat);
                assert(before + (lead + set + rest) =~= text@ + rest);
            }
            last = part.end as usize;
        }
        push_char(&mut text, '\n');
        proof {
            assert(text@ =~= self.dump_text());
        }
        text
    }
}

} // verus!
