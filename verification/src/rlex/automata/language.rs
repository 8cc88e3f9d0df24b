//! What automata accept: walks through the transitions of a nondeterministic
//! automaton, and runs of a deterministic one.

use vstd::prelude::*;
use crate::rlex::automata::builder::{Edge, NFAInput, NFAState, NFA};

verus! {

/// The transition from `s` to `t` that reads nothing.
pub open spec fn eps_edge(s: u32, t: u32) -> Edge {
    Edge { departure: NFAState(s), destination: NFAState(t), input: NFAInput(None) }
}

/// The transition from `s` to `t` that reads block `c`.
pub open spec fn sym_edge(s: u32, c: u32, t: u32) -> Edge {
    Edge { departure: NFAState(s), destination: NFAState(t), input: NFAInput(Some(c)) }
}

/// `walk` is a chain of transitions of `edges` that leads from `s` to `t`.
pub open spec fn is_walk(edges: Seq<Edge>, walk: Seq<Edge>, s: u32, t: u32) -> bool {
    &&& forall|i: int| 0 <= i < walk.len() ==> edges.contains(#[trigger] walk[i])
    &&& forall|i: int, j: int|
        #![trigger walk[i], walk[j]]
        0 <= i && j == i + 1 && j < walk.len() ==> walk[i].destination.0 == walk[j].departure.0
    &&& if walk.len() == 0 {
        s == t
    } else {
        walk[0].departure.0 == s && walk.last().destination.0 == t
    }
}

/// The string that a chain of transitions reads.
pub open spec fn spelled(walk: Seq<Edge>) -> Seq<u32>
    decreases walk.len(),
{
    if walk.len() == 0 {
        Seq::empty()
    } else {
        match walk.last().input.0 {
            None => spelled(walk.drop_last()),
            Some(c) => spelled(walk.drop_last()).push(c),
        }
    }
}

/// Some chain of transitions leads from `s` to `t` and reads `w`.
pub open spec fn nfa_reaches(edges: Seq<Edge>, s: u32, w: Seq<u32>, t: u32) -> bool {
    exists|walk: Seq<Edge>| #[trigger] is_walk(edges, walk, s, t) && spelled(walk) == w
}

/// The automaton `m` among the transitions `edges` accepts `w`: some chain
/// of transitions from its start to its accepting state reads `w`.
pub open spec fn nfa_accepts(edges: Seq<Edge>, m: NFA, w: Seq<u32>) -> bool {
    nfa_reaches(edges, m.start.0, w, m.accepted.0)
}

/// Every state reaches itself without reading anything.
pub proof fn lemma_reaches_self(edges: Seq<Edge>, s: u32)
    ensures
        nfa_reaches(edges, s, Seq::empty(), s),
{
    let walk = Seq::<Edge>::empty();
    assert(is_walk(edges, walk, s, s));
    assert(spelled(walk) =~= Seq::<u32>::empty());
}

/// A chain extended by one transition reads what it read, and then what
/// that transition reads.
pub proof fn lemma_extend_walk(edges: Seq<Edge>, walk: Seq<Edge>, s: u32, e: Edge)
    requires
        is_walk(edges, walk, s, e.departure.0),
        edges.contains(e),
    ensures
        is_walk(edges, walk.push(e), s, e.destination.0),
        spelled(walk.push(e)) == match e.input.0 {
            None => spelled(walk),
            Some(c) => spelled(walk).push(c),
        },
{
    let longer = walk.push(e);
    assert(longer.drop_last() =~= walk);
    assert(longer.last() == e);
    assert forall|i: int| 0 <= i < longer.len() implies edges.contains(#[trigger] longer[i]) by {
        if i < walk.len() {
            assert(longer[i] == walk[i]);
        }
    }
    assert forall|i: int| 0 <= i < longer.len() - 1 implies (#[trigger] longer[i]).destination.0
        == longer[i + 1].departure.0 by {
        assert(longer[i] == walk[i]);
        if i + 1 < walk.len() {
            assert(longer[i + 1] == walk[i + 1]);
        }
    }
    if walk.len() > 0 {
        assert(longer[0] == walk[0]);
    }
}

/// Two chains in a row read the two strings in a row.
pub proof fn lemma_reaches_concat(edges: Seq<Edge>, s: u32, u: Seq<u32>, m: u32, v: Seq<u32>, t: u32)
    requires
        nfa_reaches(edges, s, u, m),
        nfa_reaches(edges, m, v, t),
    ensures
        nfa_reaches(edges, s, u + v, t),
{
    let a = choose|a: Seq<Edge>| #[trigger] is_walk(edges, a, s, m) && spelled(a) == u;
    let b = choose|b: Seq<Edge>| #[trigger] is_walk(edges, b, m, t) && spelled(b) == v;
    lemma_join_walks(edges, a, b, s, m, t);
}

pub proof fn lemma_join_walks(edges: Seq<Edge>, a: Seq<Edge>, b: Seq<Edge>, s: u32, m: u32, t: u32)
    requires
        is_walk(edges, a, s, m),
        is_walk(edges, b, m, t),
    ensures
        is_walk(edges, a + b, s, t),
        spelled(a + b) == spelled(a) + spelled(b),
        nfa_reaches(edges, s, spelled(a) + spelled(b), t),
    decreases b.len(),
{
    if b.len() == 0 {
        assert(a + b =~= a);
        assert(spelled(b) =~= Seq::<u32>::empty());
        assert(spelled(a) + spelled(b) =~= spelled(a));
    } else {
        let e = b.last();
        let b0 = b.drop_last();
        assert(edges.contains(b[b.len() - 1]));
        assert(is_walk(edges, b0, m, e.departure.0)) by {
            assert forall|i: int| 0 <= i < b0.len() implies edges.contains(#[trigger] b0[i]) by {
                assert(b0[i] == b[i]);
            }
            assert forall|i: int| 0 <= i < b0.len() - 1 implies (#[trigger] b0[i]).destination.0 == b0[i
                + 1].departure.0 by {
                assert(b0[i] == b[i]);
                assert(b0[i + 1] == b[i + 1]);
            }
            if b0.len() > 0 {
                assert(b0[0] == b[0]);
                assert(b0.last() == b[b.len() - 2]);
                assert(b[b.len() - 2].destination.0 == b[b.len() - 1].departure.0);
            }
        }
        lemma_join_walks(edges, a, b0, s, m, e.departure.0);
        lemma_extend_walk(edges, a + b0, s, e);
        assert((a + b0).push(e) =~= a + b);
        match e.input.0 {
            None => {
                assert(spelled(b) == spelled(b0));
            },
            Some(c) => {
                assert(spelled(b) == spelled(b0).push(c));
                assert((spelled(a) + spelled(b0)).push(c) =~= spelled(a) + spelled(b0).push(c));
            },
        }
    }
}

/// One transition that reads nothing, after a chain, gives a chain that
/// reads the same.
pub proof fn lemma_reaches_then_eps(edges: Seq<Edge>, s: u32, w: Seq<u32>, m: u32, t: u32)
    requires
        nfa_reaches(edges, s, w, m),
        edges.contains(eps_edge(m, t)),
    ensures
        nfa_reaches(edges, s, w, t),
{
    let a = choose|a: Seq<Edge>| #[trigger] is_walk(edges, a, s, m) && spelled(a) == w;
    lemma_extend_walk(edges, a, s, eps_edge(m, t));
}

/// One transition that reads `c`, after a chain, gives a chain that reads
/// `c` more.
pub proof fn lemma_reaches_then_sym(edges: Seq<Edge>, s: u32, w: Seq<u32>, m: u32, c: u32, t: u32)
    requires
        nfa_reaches(edges, s, w, m),
        edges.contains(sym_edge(m, c, t)),
    ensures
        nfa_reaches(edges, s, w.push(c), t),
{
    let a = choose|a: Seq<Edge>| #[trigger] is_walk(edges, a, s, m) && spelled(a) == w;
    lemma_extend_walk(edges, a, s, sym_edge(m, c, t));
}

/// A chain without its last transition is a chain to where that transition
/// departs.
pub proof fn lemma_shorten_walk(edges: Seq<Edge>, walk: Seq<Edge>, s: u32, t: u32)
    requires
        is_walk(edges, walk, s, t),
        walk.len() > 0,
    ensures
        is_walk(edges, walk.drop_last(), s, walk.last().departure.0),
        edges.contains(walk.last()),
        walk.last().destination.0 == t,
{
    let b0 = walk.drop_last();
    assert(edges.contains(walk[walk.len() - 1]));
    assert forall|i: int| 0 <= i < b0.len() implies edges.contains(#[trigger] b0[i]) by {
        assert(b0[i] == walk[i]);
    }
    assert forall|i: int| 0 <= i < b0.len() - 1 implies (#[trigger] b0[i]).destination.0 == b0[i
        + 1].departure.0 by {
        assert(b0[i] == walk[i]);
        assert(b0[i + 1] == walk[i + 1]);
    }
    if b0.len() > 0 {
        assert(b0[0] == walk[0]);
        assert(b0.last() == walk[walk.len() - 2]);
        assert(walk[walk.len() - 2].destination.0 == walk[walk.len() - 1].departure.0);
    }
}

/// State `t` is reached from a state of `from` by one transition that reads
/// `c` and any number that read nothing.
pub open spec fn moved(edges: Seq<Edge>, from: Seq<u32>, c: u32, t: u32) -> bool {
    exists|a: u32, b: u32|
        from.contains(a) && #[trigger] edges.contains(sym_edge(a, c, b)) && nfa_reaches(
            edges,
            b,
            Seq::empty(),
            t,
        )
}

/// A chain that reads `w` and then `c` splits into a chain that reads `w`,
/// one transition that reads `c`, and a chain that reads nothing.
pub proof fn lemma_split_last(edges: Seq<Edge>, s: u32, w: Seq<u32>, c: u32, t: u32) -> (r: (u32, u32))
    requires
        nfa_reaches(edges, s, w.push(c), t),
    ensures
        nfa_reaches(edges, s, w, r.0),
        edges.contains(sym_edge(r.0, c, r.1)),
        nfa_reaches(edges, r.1, Seq::empty(), t),
{
    let walk = choose|walk: Seq<Edge>| #[trigger] is_walk(edges, walk, s, t) && spelled(walk) == w.push(c);
    lemma_split_walk(edges, walk, s, w, c, t)
}

proof fn lemma_split_walk(edges: Seq<Edge>, walk: Seq<Edge>, s: u32, w: Seq<u32>, c: u32, t: u32) -> (r: (
    u32,
    u32,
))
    requires
        is_walk(edges, walk, s, t),
        spelled(walk) == w.push(c),
    ensures
        nfa_reaches(edges, s, w, r.0),
        edges.contains(sym_edge(r.0, c, r.1)),
        nfa_reaches(edges, r.1, Seq::empty(), t),
    decreases walk.len(),
{
    if walk.len() == 0 {
        assert(spelled(walk).len() == 0);
        assert(w.push(c).len() > 0);
        (0, 0)
    } else {
        let e = walk.last();
        lemma_shorten_walk(edges, walk, s, t);
        match e.input.0 {
            None => {
                let r = lemma_split_walk(edges, walk.drop_last(), s, w, c, e.departure.0);
                assert(e == eps_edge(e.departure.0, t));
                lemma_reaches_then_eps(edges, r.1, Seq::empty(), e.departure.0, t);
                r
            },
            Some(x) => {
                let before = spelled(walk.drop_last());
                assert(before.push(x) == w.push(c));
                assert(before.push(x).last() == x);
                assert(w.push(c).last() == c);
                assert(before.push(x).drop_last() =~= before);
                assert(w.push(c).drop_last() =~= w);
                assert(e == sym_edge(e.departure.0, c, t));
                lemma_reaches_self(edges, t);
                (e.departure.0, t)
            },
        }
    }
}

/// The states reached on `w` and then `c` are those to which the states
/// reached on `w` move on `c`.
pub proof fn lemma_reaches_push(edges: Seq<Edge>, s: u32, w: Seq<u32>, c: u32, from: Seq<u32>, t: u32)
    requires
        forall|x: u32| from.contains(x) <==> nfa_reaches(edges, s, w, x),
    ensures
        nfa_reaches(edges, s, w.push(c), t) <==> moved(edges, from, c, t),
{
    if nfa_reaches(edges, s, w.push(c), t) {
        let r = lemma_split_last(edges, s, w, c, t);
        assert(from.contains(r.0));
        assert(edges.contains(sym_edge(r.0, c, r.1)));
    }
    if moved(edges, from, c, t) {
        let (a, b) = choose|a: u32, b: u32|
            from.contains(a) && #[trigger] edges.contains(sym_edge(a, c, b)) && nfa_reaches(
                edges,
                b,
                Seq::empty(),
                t,
            );
        lemma_reaches_then_sym(edges, s, w, a, c, b);
        lemma_reaches_concat(edges, s, w.push(c), b, Seq::empty(), t);
        assert(w.push(c) + Seq::<u32>::empty() =~= w.push(c));
    }
}

/// The successor of state `q` on block `c` among the moves of a
/// deterministic automaton, if there is one.
pub open spec fn step_of(moves: Seq<(u32, u32, u32)>, q: u32, c: u32) -> Option<u32> {
    if exists|t: u32| moves.contains((q, c, t)) {
        Some(choose|t: u32| moves.contains((q, c, t)))
    } else {
        None
    }
}

/// The order of the moves of a deterministic automaton: by state, then by
/// block.
pub open spec fn key_lt(a: (u32, u32, u32), b: (u32, u32, u32)) -> bool {
    a.0 < b.0 || (a.0 == b.0 && a.1 < b.1)
}

/// The moves are in strictly increasing order of state and block, so no
/// state has two moves on one block.
pub open spec fn moves_sorted(moves: Seq<(u32, u32, u32)>) -> bool {
    forall|i: int, j: int| 0 <= i < j < moves.len() ==> key_lt(#[trigger] moves[i], #[trigger] moves[j])
}

/// Among sorted moves, a move is the step of its state on its block.
pub proof fn lemma_step_of_member(moves: Seq<(u32, u32, u32)>, q: u32, c: u32, t: u32)
    requires
        moves_sorted(moves),
        moves.contains((q, c, t)),
    ensures
        step_of(moves, q, c) == Some(t),
{
    let u = choose|u: u32| moves.contains((q, c, u));
    let i = choose|i: int| 0 <= i < moves.len() && moves[i] == (q, c, t);
    let j = choose|j: int| 0 <= j < moves.len() && moves[j] == (q, c, u);
    if i < j {
        assert(key_lt(moves[i], moves[j]));
    } else if j < i {
        assert(key_lt(moves[j], moves[i]));
    }
}

/// The state in which a deterministic automaton is after reading `w` from
/// state `q`; `None` once a move is missing.
pub open spec fn run_from(moves: Seq<(u32, u32, u32)>, q: u32, w: Seq<u32>) -> Option<u32>
    decreases w.len(),
{
    if w.len() == 0 {
        Some(q)
    } else {
        match run_from(moves, q, w.drop_last()) {
            Some(p) => step_of(moves, p, w.last()),
            None => None,
        }
    }
}

} // verus!
