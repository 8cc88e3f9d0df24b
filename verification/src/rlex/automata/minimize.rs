//! Minimisation of deterministic automata: the states are partitioned by
//! what they accept, the partition is refined until no set has two states
//! that move to different sets, and each set becomes one state.

use vstd::prelude::*;
use crate::rlex::automata::builder::determine::{copy_numbers, moves_before, DFA};
use crate::rlex::automata::language::{key_lt, lemma_step_of_member, moves_sorted, run_from, step_of};
use crate::rlex::ordered::{lemma_contains_push, member, strictly_increasing};
use crate::rlex::partition_refinement::{distinct, lemma_count_bound, Element, Part, Partitions, SetIdx};

verus! {

/// The label of the state in which the automaton is after reading `w`;
/// `None` if a move is missing on the way or the state has no label.
pub open spec fn label_after(moves: Seq<(u32, u32, u32)>, labels: Seq<Option<u32>>, w: Seq<u32>) -> Option<u32> {
    match run_from(moves, 0, w) {
        Some(q) => if q < labels.len() {
            labels[q as int]
        } else {
            None
        },
        None => None,
    }
}

/// The label that the automaton gives `w` when it starts in state `x`.
pub open spec fn label_from(moves: Seq<(u32, u32, u32)>, labels: Seq<Option<u32>>, x: u32, w: Seq<u32>) -> Option<
    u32,
> {
    match run_from(moves, x, w) {
        Some(q) => if q < labels.len() {
            labels[q as int]
        } else {
            None
        },
        None => None,
    }
}

/// States `x` and `y` are equivalent: from both the automaton gives every
/// string the same label.
pub open spec fn equivalent(moves: Seq<(u32, u32, u32)>, labels: Seq<Option<u32>>, x: u32, y: u32) -> bool {
    forall|w: Seq<u32>| #[trigger] label_from(moves, labels, x, w) == label_from(moves, labels, y, w)
}

/// From state `x` the automaton gives some string a label.
pub open spec fn accepts_some(moves: Seq<(u32, u32, u32)>, labels: Seq<Option<u32>>, x: u32) -> bool {
    exists|w: Seq<u32>| (#[trigger] label_from(moves, labels, x, w)).is_some()
}

/// No state is dead: from every state some string gets a label.
pub open spec fn live(moves: Seq<(u32, u32, u32)>, labels: Seq<Option<u32>>, n: int) -> bool {
    forall|x: u32| x < n ==> #[trigger] accepts_some(moves, labels, x)
}

/// No two states are equivalent.
pub open spec fn minimal(moves: Seq<(u32, u32, u32)>, labels: Seq<Option<u32>>, n: int) -> bool {
    forall|x: u32, y: u32| x < n && y < n && x != y ==> !#[trigger] equivalent(moves, labels, x, y)
}

/// Equivalent states are in the same class.
pub open spec fn coarser(moves: Seq<(u32, u32, u32)>, labels: Seq<Option<u32>>, class: Seq<u32>) -> bool {
    forall|x: u32, y: u32|
        x < class.len() && y < class.len() && #[trigger] equivalent(moves, labels, x, y) ==> class[x as int]
            == class[y as int]
}

/// Reading `c` and then `w` is taking the move on `c` and reading `w` from
/// where it leads.
pub proof fn lemma_run_cons(moves: Seq<(u32, u32, u32)>, x: u32, c: u32, w: Seq<u32>)
    ensures
        run_from(moves, x, seq![c] + w) == match step_of(moves, x, c) {
            Some(t) => run_from(moves, t, w),
            None => None,
        },
    decreases w.len(),
{
    let all = seq![c] + w;
    if w.len() == 0 {
        assert(all.drop_last() =~= Seq::<u32>::empty());
        assert(all.last() == c);
        assert(run_from(moves, x, all.drop_last()) == Some(x));
    } else {
        lemma_run_cons(moves, x, c, w.drop_last());
        assert(all.drop_last() =~= seq![c] + w.drop_last());
        assert(all.last() == w.last());
    }
}

/// Equivalence of states does not depend on their order.
pub proof fn lemma_equivalent_sym(moves: Seq<(u32, u32, u32)>, labels: Seq<Option<u32>>, x: u32, y: u32)
    requires
        equivalent(moves, labels, x, y),
    ensures
        equivalent(moves, labels, y, x),
{
    assert forall|w: Seq<u32>| #[trigger] label_from(moves, labels, y, w) == label_from(moves, labels, x, w) by {
        assert(label_from(moves, labels, x, w) == label_from(moves, labels, y, w));
    }
}

/// Of two equivalent states, if none is dead, one moves on `c` into class
/// `s` only if the other does.
proof fn lemma_moves_alike(
    moves: Seq<(u32, u32, u32)>,
    labels: Seq<Option<u32>>,
    class: Seq<u32>,
    x: u32,
    y: u32,
    c: u32,
    t: u32,
) -> (u: u32)
    requires
        moves_sorted(moves),
        labels.len() == class.len(),
        forall|i: int| 0 <= i < moves.len() ==> (#[trigger] moves[i]).0 < class.len() && moves[i].2 < class.len(),
        live(moves, labels, class.len() as int),
        coarser(moves, labels, class),
        equivalent(moves, labels, x, y),
        moves.contains((x, c, t)),
    ensures
        moves.contains((y, c, u)),
        u < class.len(),
        t < class.len(),
        class[u as int] == class[t as int],
{
    let i = choose|i: int| 0 <= i < moves.len() && moves[i] == (x, c, t);
    assert(moves[i].2 < class.len());
    lemma_step_of_member(moves, x, c, t);
    assert(accepts_some(moves, labels, t));
    let w = choose|w: Seq<u32>| (#[trigger] label_from(moves, labels, t, w)).is_some();
    lemma_run_cons(moves, x, c, w);
    lemma_run_cons(moves, y, c, w);
    assert(label_from(moves, labels, x, seq![c] + w) == label_from(moves, labels, y, seq![c] + w));
    assert(step_of(moves, y, c).is_some());
    let u = step_of(moves, y, c).unwrap();
    assert(moves.contains((y, c, u)));
    let k = choose|k: int| 0 <= k < moves.len() && moves[k] == (y, c, u);
    assert(moves[k].2 < class.len());
    assert forall|v: Seq<u32>| #[trigger] label_from(moves, labels, t, v) == label_from(moves, labels, u, v) by {
        lemma_run_cons(moves, x, c, v);
        lemma_run_cons(moves, y, c, v);
        assert(label_from(moves, labels, x, seq![c] + v) == label_from(moves, labels, y, seq![c] + v));
    }
    assert(equivalent(moves, labels, t, u));
    u
}

/// A refinement by the states that move on `c` into class `s` does not part
/// equivalent states, if no state is dead.
pub proof fn lemma_move_pivot_coarser(
    moves: Seq<(u32, u32, u32)>,
    labels: Seq<Option<u32>>,
    before: Seq<u32>,
    after: Seq<u32>,
    pivot: Seq<u32>,
    s: u32,
    c: u32,
)
    requires
        moves_sorted(moves),
        labels.len() == before.len(),
        after.len() == before.len(),
        forall|i: int| 0 <= i < moves.len() ==> (#[trigger] moves[i]).0 < before.len() && moves[i].2 < before.len(),
        live(moves, labels, before.len() as int),
        coarser(moves, labels, before),
        forall|x: u32|
            pivot.contains(x) <==> exists|t: u32| #[trigger] moves.contains((x, c, t)) && before[t as int] == s,
        forall|a: int, b: int|
            0 <= a < before.len() && 0 <= b < before.len() ==> (#[trigger] after[a] == #[trigger] after[b] <==> (
            before[a] == before[b] && (pivot.contains(a as u32) <==> pivot.contains(b as u32)))),
    ensures
        coarser(moves, labels, after),
{
    assert forall|x: u32, y: u32|
        x < after.len() && y < after.len() && #[trigger] equivalent(moves, labels, x, y) implies after[x as int]
        == after[y as int] by {
        lemma_equivalent_sym(moves, labels, x, y);
        if pivot.contains(x) {
            let t = choose|t: u32| #[trigger] moves.contains((x, c, t)) && before[t as int] == s;
            let u = lemma_moves_alike(moves, labels, before, x, y, c, t);
            assert(moves.contains((y, c, u)) && before[u as int] == s);
        }
        if pivot.contains(y) {
            let t = choose|t: u32| #[trigger] moves.contains((y, c, t)) && before[t as int] == s;
            let u = lemma_moves_alike(moves, labels, before, y, x, c, t);
            assert(moves.contains((x, c, u)) && before[u as int] == s);
        }
        assert(after[x as int] == after[y as int] <==> (before[x as int] == before[y as int] && (pivot.contains(
            x as int as u32,
        ) <==> pivot.contains(y as int as u32))));
    }
}

/// A refinement by the states with one label does not part equivalent
/// states.
pub proof fn lemma_label_pivot_coarser(
    moves: Seq<(u32, u32, u32)>,
    labels: Seq<Option<u32>>,
    before: Seq<u32>,
    after: Seq<u32>,
    pivot: Seq<u32>,
    tag: u32,
)
    requires
        labels.len() == before.len(),
        after.len() == before.len(),
        coarser(moves, labels, before),
        forall|x: u32| pivot.contains(x) <==> x < labels.len() && labels[x as int] == Some(tag),
        forall|a: int, b: int|
            0 <= a < before.len() && 0 <= b < before.len() ==> (#[trigger] after[a] == #[trigger] after[b] <==> (
            before[a] == before[b] && (pivot.contains(a as u32) <==> pivot.contains(b as u32)))),
    ensures
        coarser(moves, labels, after),
{
    assert forall|x: u32, y: u32|
        x < after.len() && y < after.len() && #[trigger] equivalent(moves, labels, x, y) implies after[x as int]
        == after[y as int] by {
        let e = Seq::<u32>::empty();
        assert(label_from(moves, labels, x, e) == label_from(moves, labels, y, e));
        assert(run_from(moves, x, e) == Some(x));
        assert(run_from(moves, y, e) == Some(y));
        assert(after[x as int] == after[y as int] <==> (before[x as int] == before[y as int] && (pivot.contains(
            x as int as u32,
        ) <==> pivot.contains(y as int as u32))));
    }
}

/// A renaming of the classes does not part equivalent states.
pub proof fn lemma_rename_coarser(
    moves: Seq<(u32, u32, u32)>,
    labels: Seq<Option<u32>>,
    before: Seq<u32>,
    after: Seq<u32>,
)
    requires
        after.len() == before.len(),
        coarser(moves, labels, before),
        forall|a: int, b: int|
            0 <= a < before.len() && 0 <= b < before.len() && before[a] == before[b] ==> #[trigger] after[a]
                == #[trigger] after[b],
    ensures
        coarser(moves, labels, after),
{
    assert forall|x: u32, y: u32|
        x < after.len() && y < after.len() && #[trigger] equivalent(moves, labels, x, y) implies after[x as int]
        == after[y as int] by {
        assert(before[x as int] == before[y as int]);
        assert(after[x as int] == after[y as int]);
    }
}

/// The moves stay within `n` states and read blocks of the alphabet.
pub open spec fn moves_in(moves: Seq<(u32, u32, u32)>, n: int, alphabet: Seq<u32>) -> bool {
    forall|i: int|
        0 <= i < moves.len() ==> (#[trigger] moves[i]).0 < n && moves[i].2 < n && alphabet.contains(moves[i].1)
}

/// Looks the move of state `q` on block `c` up by bisection.
pub fn find_move(moves: &Vec<(u32, u32, u32)>, q: u32, c: u32) -> (r: Option<u32>)
    requires
        moves_sorted(moves@),
    ensures
        r == step_of(moves@, q, c),
{
    let mut lo: usize = 0;
    let mut hi: usize = moves.len();
    while lo < hi
        invariant
            lo <= hi <= moves@.len(),
            moves_sorted(moves@),
            forall|k: int| 0 <= k < lo ==> key_lt(#[trigger] moves@[k], (q, c, 0u32)),
            forall|k: int| hi <= k < moves@.len() ==> key_lt((q, c, 0u32), #[trigger] moves@[k]),
        decreases hi - lo,
    {
        let mid = lo + (hi - lo) / 2;
        let m = moves[mid];
        if m.0 == q && m.1 == c {
            proof {
                assert(moves@.contains((q, c, m.2)));
                lemma_step_of_member(moves@, q, c, m.2);
            }
            return Some(m.2);
        } else if m.0 < q || (m.0 == q && m.1 < c) {
            proof {
                assert forall|k: int| 0 <= k < mid + 1 implies key_lt(#[trigger] moves@[k], (q, c, 0u32)) by {
                    if k < mid {
                        assert(key_lt(moves@[k], moves@[mid as int]));
                    }
                }
            }
            lo = mid + 1;
        } else {
            proof {
                assert forall|k: int| mid <= k < moves@.len() implies key_lt((q, c, 0u32), #[trigger] moves@[k]) by {
                    if k > mid {
                        assert(key_lt(moves@[mid as int], moves@[k]));
                    }
                }
            }
            hi = mid;
        }
    }
    proof {
        assert forall|t: u32| !moves@.contains((q, c, t)) by {
            if moves@.contains((q, c, t)) {
                let k = choose|k: int| 0 <= k < moves@.len() && moves@[k] == (q, c, t);
                if k < lo {
                    assert(key_lt(moves@[k], (q, c, 0u32)));
                } else {
                    assert(key_lt((q, c, 0u32), moves@[k]));
                }
            }
        }
    }
    None
}

/// The states that move on block `c` into set `s` of the partition, in
/// increasing order.
pub fn preimage(moves: &Vec<(u32, u32, u32)>, p: &Partitions, s: SetIdx, c: u32) -> (r: Vec<u32>)
    requires
        p.wf(),
        moves_sorted(moves@),
        forall|i: int| 0 <= i < moves@.len() ==> (#[trigger] moves@[i]).0 < p.size() && moves@[i].2 < p.size(),
    ensures
        strictly_increasing(r@),
        distinct(r@),
        forall|i: int| 0 <= i < r@.len() ==> r@[i] < p.size(),
        forall|x: u32|
            r@.contains(x) <==> exists|t: u32| #[trigger] moves@.contains((x, c, t)) && p.parent(t as int) == s.0,
{
    let mut r: Vec<u32> = Vec::new();
    let mut k: usize = 0;
    while k < moves.len()
        invariant
            k <= moves@.len(),
            p.wf(),
            moves_sorted(moves@),
            forall|i: int| 0 <= i < moves@.len() ==> (#[trigger] moves@[i]).0 < p.size() && moves@[i].2 < p.size(),
            strictly_increasing(r@),
            forall|i: int| 0 <= i < r@.len() ==> r@[i] < p.size(),
            forall|i: int| 0 <= i < r@.len() ==> k > 0 && r@[i] <= moves@[k - 1].0,
            forall|x: u32|
                r@.contains(x) <==> exists|t: u32|
                    #[trigger] moves@.subrange(0, k as int).contains((x, c, t)) && p.parent(t as int) == s.0,
        decreases moves@.len() - k,
    {
        let m = moves[k];
        let ghost before = r@;
        let ghost prefix = moves@.subrange(0, k as int);
        let ghost longer = moves@.subrange(0, k + 1);
        let hit = m.1 == c && p.parent_set_of(Element(m.2)).0 == s.0;
        if hit {
            r.push(m.0);
        }
        proof {
            assert(longer =~= prefix.push(m));
            if hit {
                assert forall|a: int, b: int| 0 <= a < b < r@.len() implies r@[a] < r@[b] by {
                    if b == before.len() {
                        assert(before[a] <= moves@[k - 1].0);
                        assert(key_lt(moves@[k - 1], moves@[k as int]));
                        if before[a] == m.0 {
                            assert(before.contains(before[a]));
                            let t = choose|t: u32|
                                #[trigger] prefix.contains((before[a], c, t)) && p.parent(t as int) == s.0;
                            let i = choose|i: int| 0 <= i < prefix.len() && prefix[i] == (before[a], c, t);
                            assert(moves@[i] == (before[a], c, t));
                            assert(key_lt(moves@[i], moves@[k as int]));
                        }
                    }
                }
            }
            assert forall|i: int| 0 <= i < r@.len() implies r@[i] <= moves@[k as int].0 by {
                if i < before.len() {
                    assert(r@[i] == before[i]);
                    assert(key_lt(moves@[k - 1], moves@[k as int]));
                }
            }
            assert forall|x: u32|
                r@.contains(x) <==> exists|t: u32|
                    #[trigger] longer.contains((x, c, t)) && p.parent(t as int) == s.0 by {
                if hit {
                    lemma_contains_push(before, m.0, x);
                }
                if before.contains(x) {
                    let t = choose|t: u32| #[trigger] prefix.contains((x, c, t)) && p.parent(t as int) == s.0;
                    lemma_contains_push(prefix, m, (x, c, t));
                }
                if hit && x == m.0 {
                    lemma_contains_push(prefix, m, (x, c, m.2));
                    assert(longer.contains((x, c, m.2)));
                }
                if exists|t: u32| #[trigger] longer.contains((x, c, t)) && p.parent(t as int) == s.0 {
                    let t = choose|t: u32| #[trigger] longer.contains((x, c, t)) && p.parent(t as int) == s.0;
                    lemma_contains_push(prefix, m, (x, c, t));
                    if (x, c, t) == m {
                    } else {
                        assert(prefix.contains((x, c, t)));
                    }
                }
            }
        }
        k += 1;
    }
    proof {
        assert(moves@.subrange(0, moves@.len() as int) =~= moves@);
        assert forall|i: int, j: int| 0 <= i < j < r@.len() implies r@[i] != r@[j] by {
        }
    }
    r
}

/// A stretch that a set can be taken off: it holds a place, and begins
/// among the `n` elements.
pub open spec fn usable(part: Part, n: int) -> bool {
    part.start < part.end && part.start < n
}

/// The number of the first stretch from `from` on that a set can be taken
/// off; the number of stretches if there is none.
pub open spec fn first_usable(q: Seq<Part>, from: int, n: int) -> int
    decreases q.len() - from,
{
    if from < 0 || from >= q.len() {
        q.len() as int
    } else if usable(q[from], n) {
        from
    } else {
        first_usable(q, from + 1, n)
    }
}

/// What is left of the stretch `front` when the set `s` is taken off it.
pub open spec fn left_of(front: Part, p: Partitions, s: int) -> Part {
    Part { start: p.parts()[s].end, end: front.end }
}

/// Takes the next set off the stretches that wait to be used as splitters:
/// the first set of the first stretch that is not used up. That stretch
/// then begins where the set ends, and `head` is at it, or behind it if
/// nothing is left of it; without such a stretch `head` is at the end.
pub fn pop_set(q: &mut Vec<Part>, head: &mut usize, p: &Partitions) -> (r: Option<SetIdx>)
    requires
        p.wf(),
        *old(head) <= old(q)@.len(),
    ensures
        *final(head) <= final(q)@.len(),
        final(q)@.len() == old(q)@.len(),
        *final(head) >= *old(head),
        match r {
            Some(s) => s.0 < p.set_total(),
            None => *final(head) == final(q)@.len(),
        },
        ({
            let k = first_usable(old(q)@, *old(head) as int, p.size() as int);
            if k == old(q)@.len() {
                r is None && final(q)@ == old(q)@
            } else {
                let front = old(q)@[k];
                let s = p.parent(p.buffer()[front.start as int] as int);
                let rest = left_of(front, *p, s as int);
                r == Some(SetIdx(s)) && if rest.start >= rest.end {
                    *final(head) == k + 1 && final(q)@ == old(q)@
                } else {
                    *final(head) == k && final(q)@ == old(q)@.update(k, rest)
                }
            }
        }),
{
    while *head < q.len()
        invariant
            p.wf(),
            *head <= q@.len(),
            q@ == old(q)@,
            *head >= *old(head),
            first_usable(q@, *head as int, p.size() as int) == first_usable(
                old(q)@,
                *old(head) as int,
                p.size() as int,
            ),
        decreases q@.len() - *head,
    {
        let mut front = q[*head];
        if front.start < front.end && (front.start as usize) < p.element_count() {
            let s = front.pop_set_according_to(p);
            if front.is_empty() {
                *head = *head + 1;
            } else {
                q.set(*head, front);
            }
            return Some(s);
        }
        *head = *head + 1;
    }
    None
}

/// The class of the state to which a move leads, if there is a move.
pub open spec fn class_of_step(step: Option<u32>, class: Seq<u32>) -> Option<u32> {
    match step {
        Some(t) => Some(class[t as int]),
        None => None,
    }
}

/// State `s` and the state that stands for its class agree on block `a`:
/// both have no move, or both move into the same class.
pub open spec fn step_congruent(moves: Seq<(u32, u32, u32)>, class: Seq<u32>, reps: Seq<u32>, s: u32, a: u32) -> bool {
    class_of_step(step_of(moves, s, a), class) == class_of_step(
        step_of(moves, reps[class[s as int] as int], a),
        class,
    )
}

/// `class` sorts the states into classes, and `reps` names one state of each
/// class; state 0 is in class 0.
pub open spec fn classes_ok(n: int, class: Seq<u32>, reps: Seq<u32>) -> bool {
    &&& n >= 1
    &&& class.len() == n
    &&& reps.len() <= u32::MAX
    &&& class[0] == 0
    &&& forall|s: int| 0 <= s < n ==> (#[trigger] class[s]) < reps.len()
    &&& forall|b: int| 0 <= b < reps.len() ==> (#[trigger] reps[b]) < n && class[reps[b] as int] == b
}

/// State `x` moves on block `a` into class `s`.
pub open spec fn moves_into(moves: Seq<(u32, u32, u32)>, class: Seq<u32>, x: u32, a: u32, s: u32) -> bool {
    exists|t: u32| #[trigger] moves.contains((x, a, t)) && class[t as int] == s
}

/// Why classes are no congruence: two states of one class of which one has
/// a label that the other has not, or of which one moves on a block into a
/// class into which the other does not.
pub enum Violation {
    Label(u32),
    Move(u32, u32),
}

/// The violation is one: there are two states of one class that it tells
/// apart.
pub open spec fn violated(
    moves: Seq<(u32, u32, u32)>,
    labels: Seq<Option<u32>>,
    class: Seq<u32>,
    reps: Seq<u32>,
    v: Violation,
) -> bool {
    match v {
        Violation::Label(tag) => exists|x: u32, y: u32|
            x < class.len() && y < class.len() && #[trigger] class[x as int] == #[trigger] class[y as int] && (
            labels[x as int] == Some(tag)) != (labels[y as int] == Some(tag)),
        Violation::Move(s, a) => s < reps.len() && exists|x: u32, y: u32|
            x < class.len() && y < class.len() && #[trigger] class[x as int] == #[trigger] class[y as int]
                && moves_into(moves, class, x, a, s) != moves_into(moves, class, y, a, s),
    }
}

/// The classes are a congruence of the automaton: the states of a class
/// have the same label and move, on every block, into the same class.
pub open spec fn congruence(
    moves: Seq<(u32, u32, u32)>,
    labels: Seq<Option<u32>>,
    class: Seq<u32>,
    reps: Seq<u32>,
) -> bool {
    &&& labels.len() == class.len()
    &&& forall|s: int| 0 <= s < class.len() ==> #[trigger] labels[s] == labels[reps[class[s] as int] as int]
    &&& forall|s: u32, a: u32| s < class.len() ==> #[trigger] step_congruent(moves, class, reps, s, a)
}

/// The automaton of the classes: a class is labelled and moves as the state
/// that stands for it.
pub open spec fn quotient(
    moves: Seq<(u32, u32, u32)>,
    labels: Seq<Option<u32>>,
    class: Seq<u32>,
    reps: Seq<u32>,
    q_moves: Seq<(u32, u32, u32)>,
    q_labels: Seq<Option<u32>>,
) -> bool {
    &&& q_labels.len() == reps.len()
    &&& forall|b: int| 0 <= b < reps.len() ==> #[trigger] q_labels[b] == labels[reps[b] as int]
    &&& forall|b: u32, a: u32|
        b < reps.len() ==> #[trigger] step_of(q_moves, b, a) == class_of_step(
            step_of(moves, reps[b as int], a),
            class,
        )
}

/// `class` folds the automaton onto the other: it sends state 0 to state
/// 0, every state of the other stands for some state, a state has the
/// label of the state it is sent to, and moving and then folding is folding
/// and then moving.
pub open spec fn folds_by(
    moves: Seq<(u32, u32, u32)>,
    labels: Seq<Option<u32>>,
    class: Seq<u32>,
    q_moves: Seq<(u32, u32, u32)>,
    q_labels: Seq<Option<u32>>,
) -> bool {
    &&& class.len() == labels.len()
    &&& class.len() >= 1
    &&& class[0] == 0
    &&& forall|s: int| 0 <= s < class.len() ==> (#[trigger] class[s]) < q_labels.len()
    &&& forall|b: int| 0 <= b < q_labels.len() ==> #[trigger] stands_for(class, b)
    &&& forall|s: int| 0 <= s < class.len() ==> q_labels[(#[trigger] class[s]) as int] == labels[s]
    &&& forall|s: u32, a: u32|
        s < class.len() ==> #[trigger] step_of(q_moves, class[s as int], a) == class_of_step(
            step_of(moves, s, a),
            class,
        )
}

/// Some state is sent to state `b`.
pub open spec fn stands_for(class: Seq<u32>, b: int) -> bool {
    exists|s: int| 0 <= s < class.len() && #[trigger] class[s] == b
}

/// The automaton folds onto the other: some map of its states does it.
pub open spec fn folds_onto(
    moves: Seq<(u32, u32, u32)>,
    labels: Seq<Option<u32>>,
    q_moves: Seq<(u32, u32, u32)>,
    q_labels: Seq<Option<u32>>,
) -> bool {
    exists|class: Seq<u32>| #[trigger] folds_by(moves, labels, class, q_moves, q_labels)
}

/// The classes of a congruence fold the automaton onto the automaton of
/// the classes.
pub proof fn lemma_quotient_folds(
    moves: Seq<(u32, u32, u32)>,
    labels: Seq<Option<u32>>,
    class: Seq<u32>,
    reps: Seq<u32>,
    q_moves: Seq<(u32, u32, u32)>,
    q_labels: Seq<Option<u32>>,
)
    requires
        classes_ok(labels.len() as int, class, reps),
        congruence(moves, labels, class, reps),
        quotient(moves, labels, class, reps, q_moves, q_labels),
    ensures
        folds_by(moves, labels, class, q_moves, q_labels),
        folds_onto(moves, labels, q_moves, q_labels),
{
    assert forall|b: int| 0 <= b < q_labels.len() implies #[trigger] stands_for(class, b) by {
        assert(reps[b] < class.len() && class[reps[b] as int] == b);
    }
    assert forall|s: int| 0 <= s < class.len() implies q_labels[(#[trigger] class[s]) as int] == labels[s] by {
        assert(labels[s] == labels[reps[class[s] as int] as int]);
    }
    assert forall|s: u32, a: u32| s < class.len() implies #[trigger] step_of(q_moves, class[s as int], a)
        == class_of_step(step_of(moves, s, a), class) by {
        assert(step_congruent(moves, class, reps, s, a));
        assert(class[s as int] < reps.len());
    }
    assert(folds_by(moves, labels, class, q_moves, q_labels));
}

/// The automaton of the classes of a congruence runs as the automaton
/// itself: started in the class of a state, it is after any string in the
/// class of the state in which the automaton is, and it misses a move where
/// the automaton does. So both give every string the same label.
pub proof fn lemma_quotient_runs_from(
    moves: Seq<(u32, u32, u32)>,
    labels: Seq<Option<u32>>,
    class: Seq<u32>,
    reps: Seq<u32>,
    q_moves: Seq<(u32, u32, u32)>,
    q_labels: Seq<Option<u32>>,
    x: u32,
    w: Seq<u32>,
)
    requires
        classes_ok(class.len() as int, class, reps),
        forall|i: int| 0 <= i < moves.len() ==> (#[trigger] moves[i]).0 < class.len() && moves[i].2 < class.len(),
        congruence(moves, labels, class, reps),
        quotient(moves, labels, class, reps, q_moves, q_labels),
        x < class.len(),
    ensures
        match run_from(moves, x, w) {
            Some(s) => s < class.len() && run_from(q_moves, class[x as int], w) == Some(class[s as int]),
            None => run_from(q_moves, class[x as int], w).is_none(),
        },
        label_from(q_moves, q_labels, class[x as int], w) == label_from(moves, labels, x, w),
    decreases w.len(),
{
    if w.len() > 0 {
        let w0 = w.drop_last();
        let a = w.last();
        lemma_quotient_runs_from(moves, labels, class, reps, q_moves, q_labels, x, w0);
        match run_from(moves, x, w0) {
            Some(s) => {
                let b = class[s as int];
                assert(step_congruent(moves, class, reps, s, a));
                assert(step_of(q_moves, b, a) == class_of_step(step_of(moves, reps[b as int], a), class));
                match step_of(moves, s, a) {
                    Some(t) => {
                        assert(moves.contains((s, a, t)));
                        let i = choose|i: int| 0 <= i < moves.len() && moves[i] == (s, a, t);
                        assert(moves[i].2 < class.len());
                    },
                    None => {},
                }
            },
            None => {},
        }
    }
    match run_from(moves, x, w) {
        Some(s) => {
            assert(labels[s as int] == labels[reps[class[s as int] as int] as int]);
        },
        None => {},
    }
}

/// Minimisation equivalence. The automaton of the classes of a congruence
/// gives every string the label that the automaton itself gives it.
pub proof fn lemma_quotient_runs(
    moves: Seq<(u32, u32, u32)>,
    labels: Seq<Option<u32>>,
    class: Seq<u32>,
    reps: Seq<u32>,
    q_moves: Seq<(u32, u32, u32)>,
    q_labels: Seq<Option<u32>>,
    w: Seq<u32>,
)
    requires
        classes_ok(class.len() as int, class, reps),
        forall|i: int| 0 <= i < moves.len() ==> (#[trigger] moves[i]).0 < class.len() && moves[i].2 < class.len(),
        congruence(moves, labels, class, reps),
        quotient(moves, labels, class, reps, q_moves, q_labels),
    ensures
        label_after(q_moves, q_labels, w) == label_after(moves, labels, w),
{
    lemma_quotient_runs_from(moves, labels, class, reps, q_moves, q_labels, 0, w);
}

/// Minimisation optimality. Where the classes of a congruence keep
/// equivalent states together, no two states of the automaton of the
/// classes are equivalent.
pub proof fn lemma_quotient_minimal(
    moves: Seq<(u32, u32, u32)>,
    labels: Seq<Option<u32>>,
    class: Seq<u32>,
    reps: Seq<u32>,
    q_moves: Seq<(u32, u32, u32)>,
    q_labels: Seq<Option<u32>>,
)
    requires
        classes_ok(class.len() as int, class, reps),
        forall|i: int| 0 <= i < moves.len() ==> (#[trigger] moves[i]).0 < class.len() && moves[i].2 < class.len(),
        congruence(moves, labels, class, reps),
        quotient(moves, labels, class, reps, q_moves, q_labels),
        coarser(moves, labels, class),
    ensures
        minimal(q_moves, q_labels, reps.len() as int),
{
    assert forall|b: u32, c: u32| b < reps.len() && c < reps.len() && b != c implies !#[trigger] equivalent(
        q_moves,
        q_labels,
        b,
        c,
    ) by {
        let x = reps[b as int];
        let y = reps[c as int];
        assert(class[x as int] == b);
        assert(class[y as int] == c);
        if equivalent(q_moves, q_labels, b, c) {
            assert forall|w: Seq<u32>| #[trigger] label_from(moves, labels, x, w) == label_from(
                moves,
                labels,
                y,
                w,
            ) by {
                lemma_quotient_runs_from(moves, labels, class, reps, q_moves, q_labels, x, w);
                lemma_quotient_runs_from(moves, labels, class, reps, q_moves, q_labels, y, w);
                assert(label_from(q_moves, q_labels, b, w) == label_from(q_moves, q_labels, c, w));
            }
            assert(equivalent(moves, labels, x, y));
        }
    }
}

/// If no state of the automaton of the classes is dead, no state of the
/// automaton itself is.
pub proof fn lemma_quotient_live(
    moves: Seq<(u32, u32, u32)>,
    labels: Seq<Option<u32>>,
    class: Seq<u32>,
    reps: Seq<u32>,
    q_moves: Seq<(u32, u32, u32)>,
    q_labels: Seq<Option<u32>>,
)
    requires
        classes_ok(class.len() as int, class, reps),
        forall|i: int| 0 <= i < moves.len() ==> (#[trigger] moves[i]).0 < class.len() && moves[i].2 < class.len(),
        congruence(moves, labels, class, reps),
        quotient(moves, labels, class, reps, q_moves, q_labels),
        live(q_moves, q_labels, reps.len() as int),
    ensures
        live(moves, labels, class.len() as int),
{
    assert forall|x: u32| x < class.len() implies #[trigger] accepts_some(moves, labels, x) by {
        let b = class[x as int];
        assert(accepts_some(q_moves, q_labels, b));
        let w = choose|w: Seq<u32>| (#[trigger] label_from(q_moves, q_labels, b, w)).is_some();
        lemma_quotient_runs_from(moves, labels, class, reps, q_moves, q_labels, x, w);
        assert(label_from(moves, labels, x, w).is_some());
    }
}

/// A move that is not touched stays the step of its state on its block.
proof fn lemma_step_kept(moves: Seq<(u32, u32, u32)>, more: Seq<(u32, u32, u32)>, q: u32, c: u32)
    requires
        moves_sorted(more),
        forall|t: u32| more.contains((q, c, t)) <==> moves.contains((q, c, t)),
    ensures
        step_of(more, q, c) == step_of(moves, q, c),
{
    match step_of(moves, q, c) {
        Some(t) => {
            assert(moves.contains((q, c, t)));
            lemma_step_of_member(more, q, c, t);
        },
        None => {},
    }
}

/// The quotient in the making: the classes below `b` have their moves, class
/// `b` has those on the first `j` blocks of the alphabet.
pub open spec fn quotient_scan(
    moves: Seq<(u32, u32, u32)>,
    alphabet: Seq<u32>,
    class: Seq<u32>,
    reps: Seq<u32>,
    q_moves: Seq<(u32, u32, u32)>,
    b: u32,
    j: int,
) -> bool {
    &&& b < reps.len() <= u32::MAX
    &&& 0 <= j <= alphabet.len()
    &&& moves_sorted(q_moves)
    &&& moves_before(q_moves, b, alphabet, j)
    &&& moves_in(q_moves, reps.len() as int, alphabet)
    &&& forall|x: u32, a: u32|
        x < b ==> #[trigger] step_of(q_moves, x, a) == class_of_step(step_of(moves, reps[x as int], a), class)
    &&& forall|i: int|
        0 <= i < j ==> step_of(q_moves, b, #[trigger] alphabet[i]) == class_of_step(
            step_of(moves, reps[b as int], alphabet[i]),
            class,
        )
}

/// After the move of class `b` on block `alphabet[j]` was added or found
/// missing, the quotient is one block further.
proof fn lemma_quotient_step(
    moves: Seq<(u32, u32, u32)>,
    alphabet: Seq<u32>,
    class: Seq<u32>,
    reps: Seq<u32>,
    q_moves: Seq<(u32, u32, u32)>,
    more: Seq<(u32, u32, u32)>,
    b: u32,
    j: int,
)
    requires
        quotient_scan(moves, alphabet, class, reps, q_moves, b, j),
        strictly_increasing(alphabet),
        j < alphabet.len(),
        match step_of(moves, reps[b as int], alphabet[j]) {
            Some(t) => class[t as int] < reps.len() && more == q_moves.push((b, alphabet[j], class[t as int])),
            None => more == q_moves,
        },
    ensures
        quotient_scan(moves, alphabet, class, reps, more, b, j + 1),
{
    let a = alphabet[j];
    assert forall|x: u32| !q_moves.contains((b, a, x)) by {
        if q_moves.contains((b, a, x)) {
            let i = choose|i: int| 0 <= i < q_moves.len() && q_moves[i] == (b, a, x);
            assert(q_moves[i].1 < alphabet[j]);
        }
    }
    match step_of(moves, reps[b as int], a) {
        Some(t) => {
            let new_move = (b, a, class[t as int]);
            assert forall|x: int, y: int| 0 <= x < y < more.len() implies key_lt(#[trigger] more[x], #[trigger] more[y]) by {
                assert(more[x] == q_moves[x]);
                if y < q_moves.len() {
                    assert(more[y] == q_moves[y]);
                } else {
                    assert(q_moves[x].0 < b || q_moves[x].1 < alphabet[j]);
                }
            }
            assert(alphabet.contains(alphabet[j]));
            assert forall|i: int| 0 <= i < more.len() implies (#[trigger] more[i]).0 < reps.len() && more[i].2
                < reps.len() && alphabet.contains(more[i].1) by {
                if i < q_moves.len() {
                    assert(more[i] == q_moves[i]);
                }
            }
            assert forall|i: int| 0 <= i < more.len() implies (#[trigger] more[i]).0 < b || (more[i].0 == b
                && forall|n: int| j + 1 <= n < alphabet.len() ==> more[i].1 < alphabet[n]) by {
                if i < q_moves.len() {
                    assert(more[i] == q_moves[i]);
                }
            }
            assert forall|x: u32, c: u32| x < b implies #[trigger] step_of(more, x, c) == class_of_step(
                step_of(moves, reps[x as int], c),
                class,
            ) by {
                assert forall|u: u32| more.contains((x, c, u)) <==> q_moves.contains((x, c, u)) by {
                    lemma_contains_push(q_moves, new_move, (x, c, u));
                }
                lemma_step_kept(q_moves, more, x, c);
            }
            assert forall|i: int| 0 <= i < j + 1 implies step_of(more, b, #[trigger] alphabet[i]) == class_of_step(
                step_of(moves, reps[b as int], alphabet[i]),
                class,
            ) by {
                let c = alphabet[i];
                if i < j {
                    assert(alphabet[i] < alphabet[j]);
                    assert forall|u: u32| more.contains((b, c, u)) <==> q_moves.contains((b, c, u)) by {
                        lemma_contains_push(q_moves, new_move, (b, c, u));
                    }
                    lemma_step_kept(q_moves, more, b, c);
                } else {
                    lemma_contains_push(q_moves, new_move, new_move);
                    lemma_step_of_member(more, b, a, class[t as int]);
                }
            }
        },
        None => {
            assert(step_of(q_moves, b, a).is_none());
        },
    }
}

/// When class `b` has its moves on all blocks of the alphabet, it has them
/// on all blocks, and the quotient goes on with the next class.
proof fn lemma_quotient_next(
    moves: Seq<(u32, u32, u32)>,
    alphabet: Seq<u32>,
    class: Seq<u32>,
    reps: Seq<u32>,
    q_moves: Seq<(u32, u32, u32)>,
    b: u32,
)
    requires
        quotient_scan(moves, alphabet, class, reps, q_moves, b, alphabet.len() as int),
        moves_in(moves, class.len() as int, alphabet),
    ensures
        forall|x: u32, a: u32|
            x <= b ==> #[trigger] step_of(q_moves, x, a) == class_of_step(
                step_of(moves, reps[x as int], a),
                class,
            ),
        b + 1 < reps.len() ==> quotient_scan(moves, alphabet, class, reps, q_moves, (b + 1) as u32, 0),
{
    assert forall|x: u32, a: u32| x <= b implies #[trigger] step_of(q_moves, x, a) == class_of_step(
        step_of(moves, reps[x as int], a),
        class,
    ) by {
        if x == b {
            if alphabet.contains(a) {
                let i = choose|i: int| 0 <= i < alphabet.len() && alphabet[i] == a;
                assert(step_of(q_moves, b, alphabet[i]) == class_of_step(
                    step_of(moves, reps[b as int], alphabet[i]),
                    class,
                ));
            } else {
                assert forall|u: u32| !q_moves.contains((b, a, u)) by {
                    if q_moves.contains((b, a, u)) {
                        let i = choose|i: int| 0 <= i < q_moves.len() && q_moves[i] == (b, a, u);
                        assert(alphabet.contains(q_moves[i].1));
                    }
                }
                assert forall|u: u32| !moves.contains((reps[b as int], a, u)) by {
                    if moves.contains((reps[b as int], a, u)) {
                        let i = choose|i: int| 0 <= i < moves.len() && moves[i] == (reps[b as int], a, u);
                        assert(alphabet.contains(moves[i].1));
                    }
                }
            }
        }
    }
    if b + 1 < reps.len() {
        assert(moves_before(q_moves, (b + 1) as u32, alphabet, 0));
    }
}

/// `l` is the label of some state.
pub open spec fn is_label_of(labels: Seq<Option<u32>>, l: Option<u32>) -> bool {
    exists|x: int| 0 <= x < labels.len() && #[trigger] labels[x] == l
}

/// What minimisation gives: the number of classes, their moves and their
/// labels.
pub struct Quotient {
    pub count: u32,
    pub moves: Vec<(u32, u32, u32)>,
    pub labels: Vec<Option<u32>>,
}

/// Whether two labels are the same.
pub fn same_label(a: Option<u32>, b: Option<u32>) -> (r: bool)
    ensures
        r == (a == b),
{
    match (a, b) {
        (None, None) => true,
        (Some(x), Some(y)) => x == y,
        _ => false,
    }
}

/// Looks for two states of one class that a label or a move tells apart;
/// where there are none, the classes are a congruence.
fn find_violation(
    alphabet: &Vec<u32>,
    moves: &Vec<(u32, u32, u32)>,
    labels: &Vec<Option<u32>>,
    class: &Vec<u32>,
    reps: &Vec<u32>,
) -> (r: Option<Violation>)
    requires
        classes_ok(class@.len() as int, class@, reps@),
        class@.len() <= u32::MAX,
        labels@.len() == class@.len(),
        moves_sorted(moves@),
        moves_in(moves@, class@.len() as int, alphabet@),
    ensures
        match r {
            None => congruence(moves@, labels@, class@, reps@),
            Some(v) => violated(moves@, labels@, class@, reps@, v),
        },
{
    let n = class.len();
    let mut s: usize = 0;
    while s < n
        invariant
            s <= n,
            n == class@.len(),
            n <= u32::MAX,
            classes_ok(class@.len() as int, class@, reps@),
            labels@.len() == class@.len(),
            moves_sorted(moves@),
            moves_in(moves@, class@.len() as int, alphabet@),
            forall|x: int| 0 <= x < s ==> #[trigger] labels@[x] == labels@[reps@[class@[x] as int] as int],
            forall|x: u32, a: u32| x < s ==> #[trigger] step_congruent(moves@, class@, reps@, x, a),
        decreases n - s,
    {
        let rep = reps[class[s] as usize];
        proof {
            assert(class@[rep as int] == class@[s as int]);
        }
        if !same_label(labels[s], labels[rep as usize]) {
            let tag = match labels[s] {
                Some(t) => t,
                None => match labels[rep as usize] {
                    Some(t) => t,
                    None => 0,
                },
            };
            proof {
                let x = s as u32;
                assert(class@[x as int] == class@[rep as int]);
                assert((labels@[x as int] == Some(tag)) != (labels@[rep as int] == Some(tag)));
            }
            return Some(Violation::Label(tag));
        }
        let mut j: usize = 0;
        while j < alphabet.len()
            invariant
                j <= alphabet@.len(),
                s < n,
                n == class@.len(),
                n <= u32::MAX,
                rep == reps@[class@[s as int] as int],
                class@[rep as int] == class@[s as int],
                rep < n,
                classes_ok(class@.len() as int, class@, reps@),
                moves_sorted(moves@),
                moves_in(moves@, class@.len() as int, alphabet@),
                forall|i: int| 0 <= i < j ==> step_congruent(moves@, class@, reps@, s as u32, #[trigger] alphabet@[i]),
            decreases alphabet@.len() - j,
        {
            let a = alphabet[j];
            let own = find_move(moves, s as u32, a);
            let other = find_move(moves, rep, a);
            proof {
                match own {
                    Some(t) => {
                        assert(moves@.contains((s as u32, a, t)));
                        let i = choose|i: int| 0 <= i < moves@.len() && moves@[i] == (s as u32, a, t);
                        assert(moves@[i].2 < n);
                    },
                    None => {},
                }
                match other {
                    Some(u) => {
                        assert(moves@.contains((rep, a, u)));
                        let k = choose|k: int| 0 <= k < moves@.len() && moves@[k] == (rep, a, u);
                        assert(moves@[k].2 < n);
                    },
                    None => {},
                }
            }
            let target = match (own, other) {
                (None, None) => None,
                (Some(t), Some(u)) => if class[t as usize] == class[u as usize] {
                    None
                } else {
                    Some(class[t as usize])
                },
                (Some(t), None) => Some(class[t as usize]),
                (None, Some(u)) => Some(class[u as usize]),
            };
            match target {
                Some(into) => {
                    proof {
                        let x = s as u32;
                        assert(class@[x as int] == class@[rep as int]);
                        match own {
                            Some(t) => {
                                assert(moves_into(moves@, class@, x, a, into));
                                if moves_into(moves@, class@, rep, a, into) {
                                    let v = choose|v: u32| #[trigger] moves@.contains((rep, a, v)) && class@[v as int] == into;
                                    lemma_step_of_member(moves@, rep, a, v);
                                }
                            },
                            None => {
                                assert(moves_into(moves@, class@, rep, a, into));
                                if moves_into(moves@, class@, x, a, into) {
                                    let v = choose|v: u32| #[trigger] moves@.contains((x, a, v)) && class@[v as int] == into;
                                    lemma_step_of_member(moves@, x, a, v);
                                }
                            },
                        }
                        assert(moves_into(moves@, class@, x, a, into) != moves_into(moves@, class@, rep, a, into));
                    }
                    return Some(Violation::Move(into, a));
                },
                None => {},
            }
            j += 1;
        }
        proof {
            assert forall|x: u32, a: u32| x < s + 1 implies #[trigger] step_congruent(moves@, class@, reps@, x, a) by {
                if x == s {
                    if alphabet@.contains(a) {
                        let i = choose|i: int| 0 <= i < alphabet@.len() && alphabet@[i] == a;
                        assert(step_congruent(moves@, class@, reps@, s as u32, alphabet@[i]));
                    } else {
                        assert forall|u: u32| !moves@.contains((x, a, u)) by {
                            if moves@.contains((x, a, u)) {
                                let i = choose|i: int| 0 <= i < moves@.len() && moves@[i] == (x, a, u);
                                assert(alphabet@.contains(moves@[i].1));
                            }
                        }
                        assert forall|u: u32| !moves@.contains((rep, a, u)) by {
                            if moves@.contains((rep, a, u)) {
                                let i = choose|i: int| 0 <= i < moves@.len() && moves@[i] == (rep, a, u);
                                assert(alphabet@.contains(moves@[i].1));
                            }
                        }
                    }
                }
            }
        }
        s += 1;
    }
    None
}

/// Builds the automaton of the classes.
fn build_quotient(
    alphabet: &Vec<u32>,
    moves: &Vec<(u32, u32, u32)>,
    labels: &Vec<Option<u32>>,
    class: &Vec<u32>,
    reps: &Vec<u32>,
) -> (q: Quotient)
    requires
        classes_ok(class@.len() as int, class@, reps@),
        class@.len() <= u32::MAX,
        labels@.len() == class@.len(),
        strictly_increasing(alphabet@),
        moves_sorted(moves@),
        moves_in(moves@, class@.len() as int, alphabet@),
    ensures
        q.count == reps@.len(),
        q.count >= 1,
        moves_sorted(q.moves@),
        moves_in(q.moves@, q.count as int, alphabet@),
        quotient(moves@, labels@, class@, reps@, q.moves@, q.labels@),
{
    let k = reps.len();
    let mut q_moves: Vec<(u32, u32, u32)> = Vec::new();
    let mut q_labels: Vec<Option<u32>> = Vec::new();
    let mut b: usize = 0;
    proof {
        assert(class@[0] < reps@.len());
        assert(moves_before(q_moves@, 0, alphabet@, 0));
        assert(quotient_scan(moves@, alphabet@, class@, reps@, q_moves@, 0, 0));
    }
    while b < k
        invariant
            b <= k,
            k == reps@.len(),
            k >= 1,
            classes_ok(class@.len() as int, class@, reps@),
            class@.len() <= u32::MAX,
            labels@.len() == class@.len(),
            strictly_increasing(alphabet@),
            moves_sorted(moves@),
            moves_in(moves@, class@.len() as int, alphabet@),
            moves_sorted(q_moves@),
            moves_in(q_moves@, k as int, alphabet@),
            q_labels@.len() == b,
            forall|x: int| 0 <= x < b ==> #[trigger] q_labels@[x] == labels@[reps@[x] as int],
            b < k ==> quotient_scan(moves@, alphabet@, class@, reps@, q_moves@, b as u32, 0),
            forall|x: u32, a: u32|
                x < b ==> #[trigger] step_of(q_moves@, x, a) == class_of_step(
                    step_of(moves@, reps@[x as int], a),
                    class@,
                ),
        decreases k - b,
    {
        let rep = reps[b];
        q_labels.push(labels[rep as usize]);
        let mut j: usize = 0;
        while j < alphabet.len()
            invariant
                j <= alphabet@.len(),
                b < k,
                k == reps@.len(),
                rep == reps@[b as int],
                classes_ok(class@.len() as int, class@, reps@),
                class@.len() <= u32::MAX,
                strictly_increasing(alphabet@),
                moves_sorted(moves@),
                moves_in(moves@, class@.len() as int, alphabet@),
                quotient_scan(moves@, alphabet@, class@, reps@, q_moves@, b as u32, j as int),
            decreases alphabet@.len() - j,
        {
            let a = alphabet[j];
            let ghost before = q_moves@;
            match find_move(moves, rep, a) {
                Some(t) => {
                    proof {
                        assert(moves@.contains((rep, a, t)));
                        let i = choose|i: int| 0 <= i < moves@.len() && moves@[i] == (rep, a, t);
                        assert(moves@[i].2 < class@.len());
                    }
                    q_moves.push((b as u32, a, class[t as usize]));
                },
                None => {},
            }
            proof {
                lemma_quotient_step(moves@, alphabet@, class@, reps@, before, q_moves@, b as u32, j as int);
            }
            j += 1;
        }
        proof {
            lemma_quotient_next(moves@, alphabet@, class@, reps@, q_moves@, b as u32);
        }
        b += 1;
    }
    Quotient { count: k as u32, moves: q_moves, labels: q_labels }
}

/// Stretch `part` lies within stretch `other`.
pub open spec fn within(part: Part, other: Part) -> bool {
    part.start >= other.start && part.end <= other.end
}

/// Stretch `part` lies within one of the stretches that wait: those of
/// `pending` from place `head` on.
pub open spec fn waits(pending: Seq<Part>, head: int, part: Part) -> bool {
    exists|i: int| head <= i < pending.len() && within(part, #[trigger] pending[i])
}

/// The stretches that wait once the first `n` of the sets `formed` of the
/// partition with the stretches `parts` were let in, one after the other:
/// each is put behind the others, unless it lies within a stretch that
/// waits already.
pub open spec fn let_in(pending: Seq<Part>, head: int, parts: Seq<Part>, formed: Seq<SetIdx>, n: nat) -> Seq<Part>
    decreases n,
{
    if n == 0 || n > formed.len() {
        pending
    } else {
        let before = let_in(pending, head, parts, formed, (n - 1) as nat);
        let part = parts[formed[n - 1].0 as int];
        if waits(before, head, part) {
            before
        } else {
            before.push(part)
        }
    }
}

/// Whether stretch `part` lies within one of the stretches that wait.
fn covered(pending: &Vec<Part>, head: usize, part: Part) -> (r: bool)
    requires
        head <= pending@.len(),
    ensures
        r == waits(pending@, head as int, part),
{
    let mut i: usize = head;
    while i < pending.len()
        invariant
            head <= i <= pending@.len(),
            forall|k: int| head <= k < i ==> !within(part, #[trigger] pending@[k]),
        decreases pending@.len() - i,
    {
        if part.is_subset_of(&pending[i]) {
            proof {
                assert(within(part, pending@[i as int]));
            }
            return true;
        }
        i += 1;
    }
    false
}

/// Lets the smaller pieces of the sets that were just split wait to be used
/// as splitters, unless they lie within a stretch that waits already.
fn enqueue(pending: &mut Vec<Part>, head: usize, p: &Partitions, formed: &Vec<SetIdx>)
    requires
        head <= old(pending)@.len(),
        forall|i: int| 0 <= i < formed@.len() ==> (#[trigger] formed@[i]).0 < p.set_total(),
    ensures
        head <= final(pending)@.len(),
        final(pending)@ == let_in(old(pending)@, head as int, p.parts(), formed@, formed@.len()),
{
    let mut i: usize = 0;
    while i < formed.len()
        invariant
            i <= formed@.len(),
            head <= pending@.len(),
            forall|k: int| 0 <= k < formed@.len() ==> (#[trigger] formed@[k]).0 < p.set_total(),
            pending@ == let_in(old(pending)@, head as int, p.parts(), formed@, i as nat),
        decreases formed@.len() - i,
    {
        let part = p.part(formed[i]);
        if !covered(pending, head, part) {
            pending.push(part);
        }
        i += 1;
    }
}

/// The states with label `tag`, in increasing order.
fn states_labelled(labels: &Vec<Option<u32>>, tag: u32) -> (r: Vec<u32>)
    requires
        labels@.len() <= u32::MAX,
    ensures
        strictly_increasing(r@),
        distinct(r@),
        forall|i: int| 0 <= i < r@.len() ==> r@[i] < labels@.len(),
        forall|x: u32| r@.contains(x) <==> x < labels@.len() && labels@[x as int] == Some(tag),
{
    let mut r: Vec<u32> = Vec::new();
    let mut s: usize = 0;
    while s < labels.len()
        invariant
            s <= labels@.len() <= u32::MAX,
            strictly_increasing(r@),
            forall|i: int| 0 <= i < r@.len() ==> r@[i] < s,
            forall|x: u32| r@.contains(x) <==> x < s && labels@[x as int] == Some(tag),
        decreases labels@.len() - s,
    {
        let ghost before = r@;
        let hit = same_label(labels[s], Some(tag));
        if hit {
            r.push(s as u32);
        }
        proof {
            assert forall|x: u32| r@.contains(x) <==> x < s + 1 && labels@[x as int] == Some(tag) by {
                if hit {
                    lemma_contains_push(before, s as u32, x);
                }
            }
            assert forall|i: int| 0 <= i < r@.len() implies r@[i] < s + 1 by {
                if i < before.len() {
                    assert(r@[i] == before[i]);
                }
            }
        }
        s += 1;
    }
    r
}

/// What is kept of the partition of the states while it is refined: every
/// set holds a state, and equivalent states are in one set, unless a state
/// is dead.
pub open spec fn refining(
    moves: Seq<(u32, u32, u32)>,
    labels: Seq<Option<u32>>,
    n: u32,
    p: Partitions,
) -> bool {
    &&& p.wf()
    &&& p.size() == n
    &&& p.no_empty_set()
    &&& live(moves, labels, n as int) ==> coarser(moves, labels, p.classes())
}

/// The pieces that kept the number of their set: of every pair the first.
fn smaller_pieces(pairs: &Vec<(u32, u32)>) -> (r: Vec<SetIdx>)
    ensures
        r@.len() == pairs@.len(),
        forall|i: int| 0 <= i < r@.len() ==> (#[trigger] r@[i]).0 == pairs@[i].0,
{
    let mut r: Vec<SetIdx> = Vec::new();
    let mut i: usize = 0;
    while i < pairs.len()
        invariant
            i <= pairs@.len(),
            r@.len() == i,
            forall|k: int| 0 <= k < i ==> (#[trigger] r@[k]).0 == pairs@[k].0,
        decreases pairs@.len() - i,
    {
        r.push(SetIdx(pairs[i].0));
        i += 1;
    }
    r
}

/// Refines the partition by the states with label `tag`.
fn refine_by_label(
    p: &mut Partitions,
    labels: &Vec<Option<u32>>,
    tag: u32,
    moves: Ghost<Seq<(u32, u32, u32)>>,
) -> (formed: Vec<SetIdx>)
    requires
        labels@.len() <= u32::MAX,
        refining(moves@, labels@, labels@.len() as u32, *old(p)),
    ensures
        refining(moves@, labels@, labels@.len() as u32, *final(p)),
        final(p).set_total() >= old(p).set_total(),
        forall|i: int| 0 <= i < formed@.len() ==> (#[trigger] formed@[i]).0 < final(p).set_total(),
        (exists|x: u32, y: u32|
            x < labels@.len() && y < labels@.len() && #[trigger] old(p).classes()[x as int] == #[trigger] old(
                p,
            ).classes()[y as int] && (labels@[x as int] == Some(tag)) != (labels@[y as int] == Some(tag)))
            ==> final(p).set_total() > old(p).set_total(),
        forall|a: int, b: int|
            0 <= a < labels@.len() && 0 <= b < labels@.len() ==> (#[trigger] final(p).parent(a) == #[trigger] final(p).parent(b) <==> (old(p).parent(a) == old(p).parent(b) && ((labels@[a] == Some(tag)) <==> (labels@[b]
                == Some(tag))))),
{
    let pivot = states_labelled(labels, tag);
    let ghost before = *p;
    proof {
        before.lemma_wf();
    }
    let pairs = p.refine_pairs(&pivot);
    let formed = smaller_pieces(&pairs);
    proof {
        p.lemma_wf();
        assert forall|a: int, b: int|
            0 <= a < before.classes().len() && 0 <= b < before.classes().len() implies (#[trigger] p.classes()[a]
            == #[trigger] p.classes()[b] <==> (before.classes()[a] == before.classes()[b] && (pivot@.contains(
            a as u32,
        ) <==> pivot@.contains(b as u32)))) by {
            assert(p.parent(a) == p.parent(b) <==> (before.parent(a) == before.parent(b) && (pivot@.contains(
                a as u32,
            ) <==> pivot@.contains(b as u32))));
        }
        if live(moves@, labels@, labels@.len() as int) {
            lemma_label_pivot_coarser(moves@, labels@, before.classes(), p.classes(), pivot@, tag);
        }
        if exists|x: u32, y: u32|
            x < labels@.len() && y < labels@.len() && #[trigger] before.classes()[x as int]
                == #[trigger] before.classes()[y as int] && (labels@[x as int] == Some(tag)) != (labels@[y as int]
                == Some(tag)) {
            let (x, y) = choose|x: u32, y: u32|
                x < labels@.len() && y < labels@.len() && #[trigger] before.classes()[x as int]
                    == #[trigger] before.classes()[y as int] && (labels@[x as int] == Some(tag)) != (labels@[y as int]
                    == Some(tag));
            lemma_split_grows(before, *p, pivot@, x, y);
        }
        assert forall|a: int, b: int| 0 <= a < labels@.len() && 0 <= b < labels@.len() implies (#[trigger] p.parent(a)
            == #[trigger] p.parent(b) <==> (before.parent(a) == before.parent(b) && ((labels@[a] == Some(tag)) <==> (
        labels@[b] == Some(tag))))) by {
            assert(pivot@.contains(a as u32) <==> labels@[a] == Some(tag));
            assert(pivot@.contains(b as u32) <==> labels@[b] == Some(tag));
        }
    }
    formed
}

/// Refines the partition by the states that move on block `c` into set
/// `s`.
fn refine_by_move(
    p: &mut Partitions,
    moves: &Vec<(u32, u32, u32)>,
    s: SetIdx,
    c: u32,
    labels: Ghost<Seq<Option<u32>>>,
) -> (formed: Vec<SetIdx>)
    requires
        moves_sorted(moves@),
        forall|i: int| 0 <= i < moves@.len() ==> (#[trigger] moves@[i]).0 < old(p).size() && moves@[i].2 < old(p).size(),
        labels@.len() == old(p).size(),
        refining(moves@, labels@, labels@.len() as u32, *old(p)),
    ensures
        refining(moves@, labels@, labels@.len() as u32, *final(p)),
        final(p).set_total() >= old(p).set_total(),
        forall|i: int| 0 <= i < formed@.len() ==> (#[trigger] formed@[i]).0 < final(p).set_total(),
        (exists|x: u32, y: u32|
            x < labels@.len() && y < labels@.len() && #[trigger] old(p).classes()[x as int] == #[trigger] old(
                p,
            ).classes()[y as int] && moves_into(moves@, old(p).classes(), x, c, s.0) != moves_into(
                moves@,
                old(p).classes(),
                y,
                c,
                s.0,
            )) ==> final(p).set_total() > old(p).set_total(),
        forall|a: int, b: int|
            0 <= a < labels@.len() && 0 <= b < labels@.len() ==> (#[trigger] final(p).parent(a) == #[trigger] final(p).parent(b) <==> (old(p).parent(a) == old(p).parent(b) && (moves_into(
                moves@,
                old(p).classes(),
                a as u32,
                c,
                s.0,
            ) <==> moves_into(moves@, old(p).classes(), b as u32, c, s.0)))),
{
    let pivot = preimage(moves, p, s, c);
    let ghost before = *p;
    proof {
        before.lemma_wf();
        assert forall|x: u32| pivot@.contains(x) <==> moves_into(moves@, before.classes(), x, c, s.0) by {
            if pivot@.contains(x) {
                let t = choose|t: u32| #[trigger] moves@.contains((x, c, t)) && before.parent(t as int) == s.0;
                let i = choose|i: int| 0 <= i < moves@.len() && moves@[i] == (x, c, t);
                assert(moves@[i].2 < before.size());
                assert(before.classes()[t as int] == s.0);
            }
            if moves_into(moves@, before.classes(), x, c, s.0) {
                let t = choose|t: u32| #[trigger] moves@.contains((x, c, t)) && before.classes()[t as int] == s.0;
                let i = choose|i: int| 0 <= i < moves@.len() && moves@[i] == (x, c, t);
                assert(moves@[i].2 < before.size());
                assert(before.parent(t as int) == s.0);
            }
        }
    }
    let pairs = p.refine_pairs(&pivot);
    let formed = smaller_pieces(&pairs);
    proof {
        p.lemma_wf();
        assert forall|a: int, b: int|
            0 <= a < before.classes().len() && 0 <= b < before.classes().len() implies (#[trigger] p.classes()[a]
            == #[trigger] p.classes()[b] <==> (before.classes()[a] == before.classes()[b] && (pivot@.contains(
            a as u32,
        ) <==> pivot@.contains(b as u32)))) by {
            assert(p.parent(a) == p.parent(b) <==> (before.parent(a) == before.parent(b) && (pivot@.contains(
                a as u32,
            ) <==> pivot@.contains(b as u32))));
        }
        if live(moves@, labels@, labels@.len() as int) {
            assert forall|x: u32|
                pivot@.contains(x) <==> exists|t: u32|
                    #[trigger] moves@.contains((x, c, t)) && before.classes()[t as int] == s.0 by {
                assert(pivot@.contains(x) <==> moves_into(moves@, before.classes(), x, c, s.0));
            }
            lemma_move_pivot_coarser(moves@, labels@, before.classes(), p.classes(), pivot@, s.0, c);
        }
        if exists|x: u32, y: u32|
            x < labels@.len() && y < labels@.len() && #[trigger] before.classes()[x as int]
                == #[trigger] before.classes()[y as int] && moves_into(moves@, before.classes(), x, c, s.0)
                != moves_into(moves@, before.classes(), y, c, s.0) {
            let (x, y) = choose|x: u32, y: u32|
                x < labels@.len() && y < labels@.len() && #[trigger] before.classes()[x as int]
                    == #[trigger] before.classes()[y as int] && moves_into(moves@, before.classes(), x, c, s.0)
                    != moves_into(moves@, before.classes(), y, c, s.0);
            assert(pivot@.contains(x) <==> moves_into(moves@, before.classes(), x, c, s.0));
            assert(pivot@.contains(y) <==> moves_into(moves@, before.classes(), y, c, s.0));
            lemma_split_grows(before, *p, pivot@, x, y);
        }
        assert forall|a: int, b: int| 0 <= a < labels@.len() && 0 <= b < labels@.len() implies (#[trigger] p.parent(a)
            == #[trigger] p.parent(b) <==> (before.parent(a) == before.parent(b) && (moves_into(
            moves@,
            before.classes(),
            a as u32,
            c,
            s.0,
        ) <==> moves_into(moves@, before.classes(), b as u32, c, s.0)))) by {
            assert(pivot@.contains(a as u32) <==> moves_into(moves@, before.classes(), a as u32, c, s.0));
            assert(pivot@.contains(b as u32) <==> moves_into(moves@, before.classes(), b as u32, c, s.0));
        }
    }
    formed
}

/// A refinement that parts two elements of one set makes a set.
proof fn lemma_split_grows(before: Partitions, after: Partitions, pivot: Seq<u32>, x: u32, y: u32)
    requires
        before.wf(),
        after.wf(),
        after.size() == before.size(),
        x < before.size(),
        y < before.size(),
        before.classes()[x as int] == before.classes()[y as int],
        pivot.contains(x) != pivot.contains(y),
        forall|a: int, b: int|
            0 <= a < before.size() && 0 <= b < before.size() ==> (#[trigger] after.parent(a) == #[trigger] after.parent(
                b,
            ) <==> (before.parent(a) == before.parent(b) && (pivot.contains(a as u32) <==> pivot.contains(b as u32)))),
        forall|e: int|
            0 <= e < before.size() ==> (#[trigger] after.parent(e)) == before.parent(e) || after.parent(e)
                >= before.set_total(),
    ensures
        after.set_total() > before.set_total(),
{
    before.lemma_wf();
    after.lemma_wf();
    assert(before.parent(x as int) == before.classes()[x as int]);
    assert(before.parent(y as int) == before.classes()[y as int]);
    assert(after.parent(x as int) != after.parent(y as int));
    if after.parent(x as int) == before.parent(x as int) {
        assert(after.parent(y as int) >= before.set_total());
        assert(after.parent(y as int) < after.set_total());
    } else {
        assert(after.parent(x as int) >= before.set_total());
        assert(after.parent(x as int) < after.set_total());
    }
}

/// The states of a set agree on the labels `tags`: where one has one of
/// them, the other has it too.
pub open spec fn agree_on(labels: Seq<Option<u32>>, p: Partitions, tags: Seq<u32>) -> bool {
    forall|a: int, b: int, t: u32|
        0 <= a < labels.len() && 0 <= b < labels.len() && #[trigger] p.parent(a) == #[trigger] p.parent(b)
            && #[trigger] tags.contains(t) ==> (labels[a] == Some(t) <==> labels[b] == Some(t))
}

/// The states of a set have the same label.
pub open spec fn same_labels(labels: Seq<Option<u32>>, p: Partitions) -> bool {
    forall|a: int, b: int|
        0 <= a < labels.len() && 0 <= b < labels.len() && #[trigger] p.parent(a) == #[trigger] p.parent(b)
            ==> labels[a] == labels[b]
}

/// Partitions the states: first by their labels, then, with the sets that
/// wait as splitters, by the moves into them. The sets whose splitting
/// leaves a smaller piece wait in turn, until none waits. No run takes more
/// steps than the bound on them allows, which only serves to show that the
/// loop ends; what is left to do is done by the caller.
fn refine_classes(n: u32, alphabet: &Vec<u32>, moves: &Vec<(u32, u32, u32)>, labels: &Vec<Option<u32>>) -> (p: Partitions)
    requires
        n >= 1,
        labels@.len() == n,
        moves_sorted(moves@),
        moves_in(moves@, n as int, alphabet@),
    ensures
        refining(moves@, labels@, n, p),
        same_labels(labels@, p),
{
    let mut resulting = Partitions::new(n);
    proof {
        resulting.lemma_wf();
        assert forall|x: u32, y: u32|
            x < resulting.classes().len() && y < resulting.classes().len() && #[trigger] equivalent(
                moves@,
                labels@,
                x,
                y,
            ) implies resulting.classes()[x as int] == resulting.classes()[y as int] by {
            assert(resulting.parent(x as int) == 0);
            assert(resulting.parent(y as int) == 0);
        }
    }
    let mut pending: Vec<Part> = Vec::new();
    let mut head: usize = 0;
    let mut seen: Vec<u32> = Vec::new();
    let mut s: usize = 0;
    while s < labels.len()
        invariant
            s <= labels@.len(),
            labels@.len() == n,
            refining(moves@, labels@, n, resulting),
            head <= pending@.len(),
            strictly_increasing(seen@),
            agree_on(labels@, resulting, seen@),
            forall|k: int| 0 <= k < s ==> match #[trigger] labels@[k] {
                Some(t) => seen@.contains(t),
                None => true,
            },
        decreases labels@.len() - s,
    {
        let ghost before = resulting;
        let ghost seen_before = seen@;
        match labels[s] {
            Some(tag) => {
                if crate::rlex::ordered::insert(&mut seen, tag) {
                    let formed = refine_by_label(&mut resulting, labels, tag, Ghost(moves@));
                    enqueue(&mut pending, head, &resulting, &formed);
                }
                proof {
                    assert(seen@.contains(tag));
                    assert forall|a: int, b: int, t: u32|
                        0 <= a < labels@.len() && 0 <= b < labels@.len() && #[trigger] resulting.parent(a)
                            == #[trigger] resulting.parent(b) && #[trigger] seen@.contains(t) implies (labels@[a]
                        == Some(t) <==> labels@[b] == Some(t)) by {
                        if seen_before.contains(t) {
                            assert(before.parent(a) == before.parent(b));
                        }
                    }
                }
            },
            None => {},
        }
        s += 1;
    }
    proof {
        assert forall|a: int, b: int|
            0 <= a < labels@.len() && 0 <= b < labels@.len() && #[trigger] resulting.parent(a)
                == #[trigger] resulting.parent(b) implies labels@[a] == labels@[b] by {
            match labels@[a] {
                Some(t) => {
                    assert(seen@.contains(t));
                },
                None => {
                    match labels@[b] {
                        Some(t) => {
                            assert(seen@.contains(t));
                        },
                        None => {},
                    }
                },
            }
        }
    }
    proof {
        assert((n as u64) * (n as u64) <= 0xFFFF_FFFFu64 * 0xFFFF_FFFFu64) by (nonlinear_arith)
            requires
                n <= 0xFFFF_FFFFu32,
        ;
    }
    let mut budget: u64 = (n as u64) * (n as u64) + (n as u64) + 1;
    while budget > 0
        invariant
            labels@.len() == n,
            refining(moves@, labels@, n, resulting),
            same_labels(labels@, resulting),
            head <= pending@.len(),
            moves_sorted(moves@),
            moves_in(moves@, n as int, alphabet@),
        decreases budget,
    {
        budget -= 1;
        let splitter = match pop_set(&mut pending, &mut head, &resulting) {
            Some(x) => x,
            None => {
                return resulting;
            },
        };
        let mut j: usize = 0;
        while j < alphabet.len()
            invariant
                j <= alphabet@.len(),
                labels@.len() == n,
                refining(moves@, labels@, n, resulting),
                same_labels(labels@, resulting),
                splitter.0 < resulting.set_total(),
                head <= pending@.len(),
                moves_sorted(moves@),
                moves_in(moves@, n as int, alphabet@),
            decreases alphabet@.len() - j,
        {
            let ghost before = resulting;
            let formed = refine_by_move(&mut resulting, moves, splitter, alphabet[j], Ghost(labels@));
            proof {
                assert forall|a: int, b: int|
                    0 <= a < labels@.len() && 0 <= b < labels@.len() && #[trigger] resulting.parent(a)
                        == #[trigger] resulting.parent(b) implies labels@[a] == labels@[b] by {
                    assert(before.parent(a) == before.parent(b));
                }
            }
            enqueue(&mut pending, head, &resulting, &formed);
            j += 1;
        }
    }
    resulting
}

/// The state that stands for each set of the partition: its first element.
fn representatives(p: &Partitions) -> (reps: Vec<u32>)
    requires
        p.wf(),
        p.no_empty_set(),
    ensures
        reps@.len() == p.set_total(),
        forall|b: int| 0 <= b < reps@.len() ==> (#[trigger] reps@[b]) < p.size() && p.parent(reps@[b] as int) == b,
{
    let mut reps: Vec<u32> = Vec::new();
    let mut b: usize = 0;
    proof {
        p.lemma_wf();
    }
    while b < p.set_count()
        invariant
            b <= p.set_total() <= u32::MAX,
            p.wf(),
            p.no_empty_set(),
            reps@.len() == b,
            forall|x: int| 0 <= x < b ==> (#[trigger] reps@[x]) < p.size() && p.parent(reps@[x] as int) == x,
        decreases p.set_total() - b,
    {
        let members = p.set_iter(SetIdx(b as u32));
        proof {
            assert(p.parts()[b as int].start < p.parts()[b as int].end);
            p.lemma_wf();
            assert(members@.len() > 0);
        }
        reps.push(members[0]);
        b += 1;
    }
    reps
}

/// The set of each state.
fn classes(p: &Partitions, n: u32) -> (class: Vec<u32>)
    requires
        p.wf(),
        p.size() == n,
    ensures
        class@ == p.classes(),
        class@.len() == n,
        forall|s: int| 0 <= s < n ==> #[trigger] class@[s] == p.parent(s) && class@[s] < p.set_total(),
{
    let mut class: Vec<u32> = Vec::new();
    let mut s: u32 = 0;
    while s < n
        invariant
            s <= n,
            p.wf(),
            p.size() == n,
            class@.len() == s,
            forall|x: int| 0 <= x < s ==> #[trigger] class@[x] == p.parent(x) && class@[x] < p.set_total(),
        decreases n - s,
    {
        class.push(p.parent_set_of(Element(s)).0);
        s += 1;
    }
    proof {
        p.lemma_wf();
        assert(class@ =~= p.classes());
    }
    class
}

/// Minimises an automaton with `n` states, of which state 0 is the start
/// and each has a label or none. The partition of the states is refined
/// until it is a congruence, and each of its sets becomes a state. The
/// result gives every string the label that the automaton gives it, and no
/// two of its states are equivalent, unless a state of the automaton is
/// dead.
pub fn minimize_labelled(
    n: u32,
    alphabet: &Vec<u32>,
    moves: &Vec<(u32, u32, u32)>,
    labels: &Vec<Option<u32>>,
) -> (q: Quotient)
    requires
        n >= 1,
        labels@.len() == n,
        strictly_increasing(alphabet@),
        moves_sorted(moves@),
        moves_in(moves@, n as int, alphabet@),
    ensures
        q.count >= 1,
        q.count <= n,
        q.labels@.len() == q.count,
        moves_sorted(q.moves@),
        moves_in(q.moves@, q.count as int, alphabet@),
        forall|w: Seq<u32>| #[trigger] label_after(q.moves@, q.labels@, w) == label_after(moves@, labels@, w),
        live(moves@, labels@, n as int) ==> minimal(q.moves@, q.labels@, q.count as int),
        live(q.moves@, q.labels@, q.count as int) ==> minimal(q.moves@, q.labels@, q.count as int),
        forall|b: int| 0 <= b < q.count ==> is_label_of(labels@, #[trigger] q.labels@[b]),
        folds_onto(moves@, labels@, q.moves@, q.labels@),
{
    let mut p = refine_classes(n, alphabet, moves, labels);
    loop
        invariant
            n >= 1,
            labels@.len() == n,
            strictly_increasing(alphabet@),
            moves_sorted(moves@),
            moves_in(moves@, n as int, alphabet@),
            refining(moves@, labels@, n, p),
        decreases n - p.set_total(),
    {
        let first = p.parent_set_of(Element(0));
        let ghost before = p;
        p.promote_to_head(first);
        proof {
            before.lemma_wf();
            p.lemma_wf();
            lemma_count_bound(p);
            if live(moves@, labels@, n as int) {
                assert forall|a: int, b: int|
                    0 <= a < before.classes().len() && 0 <= b < before.classes().len() && before.classes()[a]
                        == before.classes()[b] implies #[trigger] p.classes()[a] == #[trigger] p.classes()[b] by {
                    assert(before.parent(a) == before.parent(b));
                    assert(p.parent(a) == p.parent(b));
                }
                lemma_rename_coarser(moves@, labels@, before.classes(), p.classes());
            }
        }
        let class = classes(&p, n);
        let reps = representatives(&p);
        proof {
            assert(class@[0] == p.parent(0));
            assert(classes_ok(n as int, class@, reps@));
        }
        match find_violation(alphabet, moves, labels, &class, &reps) {
            None => {
                let q = build_quotient(alphabet, moves, labels, &class, &reps);
                proof {
                    lemma_quotient_folds(moves@, labels@, class@, reps@, q.moves@, q.labels@);
                    assert forall|w: Seq<u32>|
                        #[trigger] label_after(q.moves@, q.labels@, w) == label_after(moves@, labels@, w) by {
                        lemma_quotient_runs(moves@, labels@, class@, reps@, q.moves@, q.labels@, w);
                    }
                    if live(q.moves@, q.labels@, q.count as int) {
                        lemma_quotient_live(moves@, labels@, class@, reps@, q.moves@, q.labels@);
                    }
                    if live(moves@, labels@, n as int) {
                        lemma_quotient_minimal(moves@, labels@, class@, reps@, q.moves@, q.labels@);
                    }
                    assert forall|b: int| 0 <= b < q.count implies is_label_of(
                        labels@,
                        #[trigger] q.labels@[b],
                    ) by {
                        let x = reps@[b] as int;
                        assert(labels@[x] == q.labels@[b]);
                    }
                }
                return q;
            },
            Some(Violation::Label(tag)) => {
                let _ = refine_by_label(&mut p, labels, tag, Ghost(moves@));
            },
            Some(Violation::Move(into, a)) => {
                let _ = refine_by_move(&mut p, moves, SetIdx(into), a, Ghost(labels@));
            },
        }
        proof {
            lemma_count_bound(p);
        }
    }
}

/// A run of an automaton stays within its states.
pub proof fn lemma_run_within(moves: Seq<(u32, u32, u32)>, n: int, w: Seq<u32>)
    requires
        n >= 1,
        forall|i: int| 0 <= i < moves.len() ==> (#[trigger] moves[i]).2 < n,
    ensures
        match run_from(moves, 0, w) {
            Some(q) => q < n,
            None => true,
        },
    decreases w.len(),
{
    if w.len() > 0 {
        lemma_run_within(moves, n, w.drop_last());
        match run_from(moves, 0, w.drop_last()) {
            Some(p) => {
                match step_of(moves, p, w.last()) {
                    Some(t) => {
                        assert(moves.contains((p, w.last(), t)));
                        let i = choose|i: int| 0 <= i < moves.len() && moves[i] == (p, w.last(), t);
                        assert(moves[i].2 < n);
                    },
                    None => {},
                }
            },
            None => {},
        }
    }
}

impl DFA {
    /// The labels of the states: one and the same label for the accepting
    /// states, none for the others.
    pub open spec fn labels(&self) -> Seq<Option<u32>> {
        Seq::new(
            self.states() as nat,
            |q: int|
                if self.accepting().contains(q as u32) {
                    Some(0u32)
                } else {
                    None
                },
        )
    }

    /// No state is dead: from every state some string is accepted.
    pub open spec fn is_live(&self) -> bool {
        live(self.moves(), self.labels(), self.states() as int)
    }

    /// No two states are equivalent: for any two there is a string that is
    /// accepted from one and not from the other.
    pub open spec fn is_minimal(&self) -> bool {
        minimal(self.moves(), self.labels(), self.states() as int)
    }

    /// The automaton with the fewest states that accepts what this one
    /// accepts: its states are partitioned, by partition refinement, into
    /// the sets of equivalent states, and each set becomes a state.
    pub fn minimize(self) -> (r: DFA)
        requires
            self.wf(),
        ensures
            r.wf(),
            r.alphabet() == self.alphabet(),
            r.states() <= self.states(),
            forall|w: Seq<u32>| r.accepts(w) <==> self.accepts(w),
            self.is_live() ==> r.is_minimal(),
            r.is_live() ==> r.is_minimal(),
            folds_onto(self.moves(), self.labels(), r.moves(), r.labels()),
    {
        let n = self.state_count();
        let mut labels: Vec<Option<u32>> = Vec::new();
        let mut s: u32 = 0;
        while s < n
            invariant
                s <= n,
                n == self.states(),
                self.wf(),
                labels@.len() == s,
                forall|x: int| 0 <= x < s ==> #[trigger] labels@[x] == self.labels()[x],
            decreases n - s,
        {
            if member(self.accepted_states().as_slice(), s) {
                labels.push(Some(0));
            } else {
                labels.push(None);
            }
            s += 1;
        }
        proof {
            assert(labels@ =~= self.labels());
            assert(moves_in(self.moves(), n as int, self.alphabet()));
        }
        let q = minimize_labelled(n, self.input_set(), self.transitions(), &labels);
        let mut accepted: Vec<u32> = Vec::new();
        let mut b: usize = 0;
        while b < q.labels.len()
            invariant
                b <= q.labels@.len(),
                q.labels@.len() == q.count,
                strictly_increasing(accepted@),
                forall|i: int| 0 <= i < accepted@.len() ==> accepted@[i] < b,
                forall|x: u32| accepted@.contains(x) <==> x < b && q.labels@[x as int].is_some(),
            decreases q.labels@.len() - b,
        {
            let ghost before = accepted@;
            let hit = q.labels[b].is_some();
            if hit {
                accepted.push(b as u32);
            }
            proof {
                assert forall|x: u32| accepted@.contains(x) <==> x < b + 1 && q.labels@[x as int].is_some() by {
                    if hit {
                        lemma_contains_push(before, b as u32, x);
                    }
                }
                assert forall|i: int| 0 <= i < accepted@.len() implies accepted@[i] < b + 1 by {
                    if i < before.len() {
                        assert(accepted@[i] == before[i]);
                    }
                }
            }
            b += 1;
        }
        let alphabet = copy_numbers(self.input_set());
        let ghost old_moves = self.moves();
        let ghost old_accepting = self.accepting();
        let r = DFA::from_parts(q.count, alphabet, q.moves, accepted);
        proof {
            assert forall|i: int| 0 <= i < r.accepting().len() implies (#[trigger] r.accepting()[i]) < r.states() by {
                assert(r.accepting().contains(r.accepting()[i]));
            }
            assert(r.labels() =~= q.labels@) by {
                assert forall|x: int| 0 <= x < q.count implies r.labels()[x] == #[trigger] q.labels@[x] by {
                    assert(is_label_of(labels@, q.labels@[x]));
                    let y = choose|y: int| 0 <= y < labels@.len() && #[trigger] labels@[y] == q.labels@[x];
                    assert(labels@[y] == self.labels()[y]);
                    assert(r.accepting().contains(x as u32) <==> q.labels@[x].is_some());
                }
            }
            assert forall|w: Seq<u32>| r.accepts(w) <==> self.accepts(w) by {
                assert(label_after(r.moves(), q.labels@, w) == label_after(old_moves, labels@, w));
                lemma_run_within(old_moves, n as int, w);
                lemma_run_within(r.moves(), q.count as int, w);
                match run_from(old_moves, 0, w) {
                    Some(x) => {
                        assert(labels@[x as int].is_some() == old_accepting.contains(x));
                    },
                    None => {},
                }
                match run_from(r.moves(), 0, w) {
                    Some(x) => {
                        assert(r.accepting().contains(x) <==> q.labels@[x as int].is_some());
                    },
                    None => {},
                }
            }
        }
        r
    }
}

} // verus!
