//! The Thompson construction: a builder that holds the transitions of all
//! automata built with it, and one fragment with a start and an accepting
//! state for every regular expression.

pub mod determine;

use vstd::prelude::*;
use crate::rlex::ast::RegEx;
use crate::rlex::automata::language::nfa_accepts;
use crate::rlex::automata::shape::{
    arcs_of,
    ends_of,
    grown_by,
    lemma_alt_shape,
    lemma_atom_shape,
    lemma_concat_shape,
    lemma_contains_add,
    lemma_ends_apart,
    lemma_optional_shape,
    lemma_some_shape,
    part_ends,
    parts_arcs,
};
use crate::rlex::automata::thompson::{
    added_above,
    alt_built,
    below,
    concat_built,
    fragment,
    lemma_alt,
    lemma_atom,
    lemma_concat,
    lemma_fragment_frame,
    lemma_optional,
    lemma_some,
    regex_matches,
    part_lo,
    parts_built,
    some_built,
};
use crate::text::{push_decimal, push_str, decimal};

verus! {

/// A state of a nondeterministic automaton.
#[derive(Debug, Copy, Clone)]
pub struct NFAState(pub u32);

/// What a transition reads: a block of the alphabet, or nothing (ε).
#[derive(Debug, Copy, Clone)]
pub struct NFAInput(pub Option<u32>);

impl NFAInput {
    /// The input of a transition that reads nothing.
    pub fn epsilon() -> (r: Self)
        ensures
            r.0.is_none(),
    {
        NFAInput(None)
    }

    /// The input of a transition that reads block `x`.
    pub fn new(x: u32) -> (r: Self)
        ensures
            r.0 == Some(x),
    {
        NFAInput(Some(x))
    }

    /// The place of an input in the order of transitions: ε first, then the
    /// blocks by number.
    pub open spec fn rank(self) -> int {
        match self.0 {
            None => -1,
            Some(x) => x as int,
        }
    }
}

/// A transition from `departure` to `destination` on `input`.
#[derive(Debug, Copy, Clone)]
pub struct Edge {
    pub departure: NFAState,
    pub destination: NFAState,
    pub input: NFAInput,
}

impl Edge {
    /// The transition from `departure` to `destination` on `input`.
    pub fn new(departure: NFAState, destination: NFAState, input: NFAInput) -> (e: Self)
        ensures
            e == (Edge { departure, destination, input }),
    {
        Edge { departure, destination, input }
    }

    /// The order in which transitions are kept: by departure, then by
    /// destination, then by input.
    pub open spec fn lt(self, other: Edge) -> bool {
        ||| self.departure.0 < other.departure.0
        ||| (self.departure.0 == other.departure.0 && self.destination.0 < other.destination.0)
        ||| (self.departure.0 == other.departure.0 && self.destination.0 == other.destination.0
            && self.input.rank() < other.input.rank())
    }

    /// Executable form of [`Edge::lt`].
    fn less(&self, other: &Edge) -> (b: bool)
        ensures
            b == self.lt(*other),
    {
        if self.departure.0 != other.departure.0 {
            self.departure.0 < other.departure.0
        } else if self.destination.0 != other.destination.0 {
            self.destination.0 < other.destination.0
        } else {
            match (self.input.0, other.input.0) {
                (None, None) => false,
                (None, Some(_)) => true,
                (Some(_), None) => false,
                (Some(a), Some(b)) => a < b,
            }
        }
    }
}

/// Two transitions of which neither comes before the other are the same.
pub proof fn lemma_edge_order_total(a: Edge, b: Edge)
    ensures
        a.lt(b) || b.lt(a) || a == b,
{
}

/// One automaton among the transitions of a builder.
pub struct NFA {
    pub start: NFAState,
    pub accepted: NFAState,
}

/// Some transition leads from `s` to `t`.
pub open spec fn has_step(edges: Seq<Edge>, s: u32, t: u32) -> bool {
    exists|i: int| 0 <= i < edges.len() && (#[trigger] edges[i]).departure.0 == s && edges[i].destination.0 == t
}

/// `path` is a walk along transitions.
pub open spec fn is_path(edges: Seq<Edge>, path: Seq<u32>) -> bool {
    &&& path.len() >= 1
    &&& forall|i: int| 0 <= i < path.len() - 1 ==> has_step(edges, #[trigger] path[i], path[i + 1])
}

/// State `t` can be reached from state `s` along transitions.
pub open spec fn reachable(edges: Seq<Edge>, s: u32, t: u32) -> bool {
    exists|path: Seq<u32>| #[trigger] is_path(edges, path) && path[0] == s && path.last() == t
}

/// Every transition of `a` is one of `b`.
pub open spec fn edges_within(a: Seq<Edge>, b: Seq<Edge>) -> bool {
    forall|e: Edge| a.contains(e) ==> b.contains(e)
}

/// Every state reaches itself.
pub proof fn lemma_reachable_refl(edges: Seq<Edge>, s: u32)
    ensures
        reachable(edges, s, s),
{
    let path = seq![s];
    assert(is_path(edges, path));
    assert(path[0] == s && path.last() == s);
}

/// A transition is a way from its departure to its destination.
pub proof fn lemma_reachable_step(edges: Seq<Edge>, e: Edge)
    requires
        edges.contains(e),
    ensures
        reachable(edges, e.departure.0, e.destination.0),
{
    let i = choose|i: int| 0 <= i < edges.len() && edges[i] == e;
    let path = seq![e.departure.0, e.destination.0];
    assert(has_step(edges, e.departure.0, e.destination.0));
    assert(is_path(edges, path));
    assert(path[0] == e.departure.0 && path.last() == e.destination.0);
}

/// Two ways in a row are a way.
pub proof fn lemma_reachable_trans(edges: Seq<Edge>, s: u32, m: u32, t: u32)
    requires
        reachable(edges, s, m),
        reachable(edges, m, t),
    ensures
        reachable(edges, s, t),
{
    let p = choose|p: Seq<u32>| #[trigger] is_path(edges, p) && p[0] == s && p.last() == m;
    let q = choose|q: Seq<u32>| #[trigger] is_path(edges, q) && q[0] == m && q.last() == t;
    let path = p + q.drop_first();
    assert forall|i: int| 0 <= i < path.len() - 1 implies has_step(edges, #[trigger] path[i], path[i + 1]) by {
        if i < p.len() - 1 {
            assert(path[i] == p[i] && path[i + 1] == p[i + 1]);
        } else {
            let j = i - p.len() + 1;
            assert(path[i] == q[j]);
            assert(path[i + 1] == q[j + 1]);
        }
    }
    assert(is_path(edges, path));
    assert(path[0] == s);
    assert(path.last() == t);
}

/// A way stays a way when transitions are added.
pub proof fn lemma_reachable_grows(a: Seq<Edge>, b: Seq<Edge>, s: u32, t: u32)
    requires
        edges_within(a, b),
        reachable(a, s, t),
    ensures
        reachable(b, s, t),
{
    let p = choose|p: Seq<u32>| #[trigger] is_path(a, p) && p[0] == s && p.last() == t;
    assert forall|i: int| 0 <= i < p.len() - 1 implies has_step(b, #[trigger] p[i], p[i + 1]) by {
        assert(has_step(a, p[i], p[i + 1]));
        let k = choose|k: int|
            0 <= k < a.len() && (#[trigger] a[k]).departure.0 == p[i] && a[k].destination.0 == p[i + 1];
        assert(a.contains(a[k]));
        assert(b.contains(a[k]));
        let m = choose|m: int| 0 <= m < b.len() && b[m] == a[k];
        assert(b[m].departure.0 == p[i]);
    }
    assert(is_path(b, p));
}

/// The transitions are in strictly increasing order.
pub open spec fn edges_sorted(edges: Seq<Edge>) -> bool {
    forall|i: int, j: int| 0 <= i < j < edges.len() ==> (#[trigger] edges[i]).lt(#[trigger] edges[j])
}

/// Builds automata for regular expressions. All automata of one builder share
/// its counter of states, so no state belongs to two of them unless one was
/// made from the other.
pub struct Builder {
    next_available_state: u32,
    transitions: Vec<Edge>,
}

impl Builder {
    /// The transitions added so far, in order.
    pub closed spec fn edges(&self) -> Seq<Edge> {
        self.transitions@
    }

    /// The number of states handed out so far.
    pub closed spec fn state_count(&self) -> u32 {
        self.next_available_state
    }

    /// The invariant of a builder: its transitions are in order, none
    /// occurs twice, and they run between states that were handed out.
    pub open spec fn wf(&self) -> bool {
        &&& edges_sorted(self.edges())
        &&& forall|i: int|
            0 <= i < self.edges().len() ==> (#[trigger] self.edges()[i]).departure.0 < self.state_count()
                && self.edges()[i].destination.0 < self.state_count()
    }

    /// Takes the builder apart: its transitions, and the number of states.
    pub(crate) fn into_parts(self) -> (r: (Vec<Edge>, u32))
        ensures
            r.0@ == self.edges(),
            r.1 == self.state_count(),
    {
        (self.transitions, self.next_available_state)
    }

    /// A builder without states and transitions.
    pub fn new() -> (b: Self)
        ensures
            b.wf(),
            b.edges() == Seq::<Edge>::empty(),
            b.state_count() == 0,
    {
        Builder { next_available_state: 0, transitions: Vec::new() }
    }

    /// Hands out a new state.
    pub fn state(&mut self) -> (s: NFAState)
        requires
            old(self).wf(),
            old(self).state_count() < u32::MAX,
        ensures
            final(self).wf(),
            s.0 == old(self).state_count(),
            final(self).state_count() == old(self).state_count() + 1,
            final(self).edges() == old(self).edges(),
    {
        let res = NFAState(self.next_available_state);
        self.next_available_state += 1;
        res
    }

    /// Adds the transition from `s` to `t` on `a`, unless it is there
    /// already; says whether it was added.
    pub fn add_arc(&mut self, s: NFAState, t: NFAState, a: NFAInput) -> (added: bool)
        requires
            old(self).wf(),
            s.0 < old(self).state_count(),
            t.0 < old(self).state_count(),
        ensures
            final(self).wf(),
            final(self).state_count() == old(self).state_count(),
            added == !old(self).edges().contains(Edge { departure: s, destination: t, input: a }),
            forall|e: Edge|
                #![trigger final(self).edges().contains(e)]
                #![trigger old(self).edges().contains(e)]
                final(self).edges().contains(e) <==> (old(self).edges().contains(e) || e == (Edge {
                    departure: s,
                    destination: t,
                    input: a,
                })),
    {
        let e = Edge::new(s, t, a);
        let mut pos: usize = 0;
        while pos < self.transitions.len() && self.transitions[pos].less(&e)
            invariant
                pos <= self.transitions@.len(),
                self.transitions@ == old(self).transitions@,
                self.next_available_state == old(self).next_available_state,
                forall|k: int| 0 <= k < pos ==> (#[trigger] self.transitions@[k]).lt(e),
            decreases self.transitions@.len() - pos,
        {
            pos += 1;
        }
        let ghost before = self.transitions@;
        if pos < self.transitions.len() && !e.less(&self.transitions[pos]) {
            proof {
                lemma_edge_order_total(e, before[pos as int]);
                assert(before[pos as int] == e);
                assert(before.contains(e));
            }
            return false;
        }
        proof {
            assert(!before.contains(e)) by {
                if before.contains(e) {
                    let k = choose|k: int| 0 <= k < before.len() && before[k] == e;
                    if k < pos {
                        assert(before[k].lt(e));
                    } else if k > pos {
                        assert(before[pos as int].lt(before[k]));
                    }
                }
            }
        }
        self.transitions.insert(pos, e);
        proof {
            let after = self.transitions@;
            assert(after == before.insert(pos as int, e));
            assert forall|i: int, j: int| 0 <= i < j < after.len() implies (#[trigger] after[i]).lt(
                #[trigger] after[j],
            ) by {
                if i < pos {
                    assert(after[i] == before[i]);
                } else if i > pos {
                    assert(after[i] == before[i - 1]);
                }
                if j < pos {
                    assert(after[j] == before[j]);
                } else if j > pos {
                    assert(after[j] == before[j - 1]);
                    if i == pos && j - 1 > pos {
                        assert(before[pos as int].lt(before[j - 1]));
                    }
                }
            }
            assert forall|i: int| 0 <= i < after.len() implies (#[trigger] after[i]).departure.0
                < self.next_available_state && after[i].destination.0 < self.next_available_state by {
                if i < pos {
                    assert(after[i] == before[i]);
                } else if i > pos {
                    assert(after[i] == before[i - 1]);
                }
            }
            assert forall|x: Edge| after.contains(x) <==> (before.contains(x) || x == e) by {
                if after.contains(x) {
                    let k = choose|k: int| 0 <= k < after.len() && after[k] == x;
                    if k < pos {
                        assert(before[k] == x);
                    } else if k > pos {
                        assert(before[k - 1] == x);
                    }
                }
                if before.contains(x) {
                    let k = choose|k: int| 0 <= k < before.len() && before[k] == x;
                    if k < pos {
                        assert(after[k] == x);
                    } else {
                        assert(after[k + 1] == x);
                    }
                }
                if x == e {
                    assert(after[pos as int] == x);
                }
            }
        }
        true
    }

    /// Adds the transition from `s` to `t` on `a`, which must be new.
    pub fn new_arc(&mut self, s: NFAState, t: NFAState, a: NFAInput)
        requires
            old(self).wf(),
            s.0 < old(self).state_count(),
            t.0 < old(self).state_count(),
            !old(self).edges().contains(Edge { departure: s, destination: t, input: a }),
        ensures
            final(self).wf(),
            final(self).state_count() == old(self).state_count(),
            forall|e: Edge|
                #![trigger final(self).edges().contains(e)]
                #![trigger old(self).edges().contains(e)]
                final(self).edges().contains(e) <==> (old(self).edges().contains(e) || e == (Edge {
                    departure: s,
                    destination: t,
                    input: a,
                })),
    {
        let _ = self.add_arc(s, t, a);
    }

    /// Hands out the two states of a new automaton, which has no transitions
    /// yet.
    pub fn new_nfa(&mut self) -> (m: NFA)
        requires
            old(self).wf(),
            old(self).state_count() + 2 <= u32::MAX,
        ensures
            final(self).wf(),
            final(self).state_count() == old(self).state_count() + 2,
            final(self).edges() == old(self).edges(),
            m.start.0 == old(self).state_count(),
            m.accepted.0 == old(self).state_count() + 1,
    {
        let s = self.state();
        let t = self.state();
        NFA { start: s, accepted: t }
    }

    /// The automaton that reads one block out of `xs`.
    pub fn atom(&mut self, xs: &[u32]) -> (m: NFA)
        requires
            old(self).wf(),
            old(self).state_count() + 2 <= u32::MAX,
        ensures
            final(self).wf(),
            final(self).state_count() == old(self).state_count() + 2,
            m.start.0 == old(self).state_count(),
            m.accepted.0 == old(self).state_count() + 1,
            forall|e: Edge|
                #![trigger final(self).edges().contains(e)]
                #![trigger old(self).edges().contains(e)]
                final(self).edges().contains(e) <==> (old(self).edges().contains(e) || (e.departure.0
                    == m.start.0 && e.destination.0 == m.accepted.0 && exists|i: int|
                    0 <= i < xs@.len() && e.input.0 == Some(#[trigger] xs@[i]))),
            xs@.len() > 0 ==> reachable(final(self).edges(), m.start.0, m.accepted.0),
    {
        let m = self.new_nfa();
        let mut i: usize = 0;
        while i < xs.len()
            invariant
                i <= xs@.len(),
                self.wf(),
                self.state_count() == old(self).state_count() + 2,
                m.start.0 == old(self).state_count(),
                m.accepted.0 == old(self).state_count() + 1,
                forall|e: Edge|
                    #![trigger self.edges().contains(e)]
                    self.edges().contains(e) <==> (old(self).edges().contains(e) || (e.departure.0
                        == m.start.0 && e.destination.0 == m.accepted.0 && exists|k: int|
                        0 <= k < i && e.input.0 == Some(#[trigger] xs@[k]))),
            decreases xs@.len() - i,
        {
            let ghost before = self.edges();
            let _ = self.add_arc(m.start, m.accepted, NFAInput::new(xs[i]));
            proof {
                let added = Edge { departure: m.start, destination: m.accepted, input: NFAInput(Some(xs@[i as int])) };
                assert forall|e: Edge|
                    self.edges().contains(e) <==> (old(self).edges().contains(e) || (e.departure.0
                        == m.start.0 && e.destination.0 == m.accepted.0 && exists|k: int|
                        0 <= k < i + 1 && e.input.0 == Some(#[trigger] xs@[k]))) by {
                    if e == added {
                        assert(e.input.0 == Some(xs@[i as int]));
                    }
                    if before.contains(e) {
                    }
                    if e.departure.0 == m.start.0 && e.destination.0 == m.accepted.0 && exists|k: int|
                        0 <= k < i + 1 && e.input.0 == Some(#[trigger] xs@[k]) {
                        let k = choose|k: int| 0 <= k < i + 1 && e.input.0 == Some(#[trigger] xs@[k]);
                        if k < i {
                            assert(before.contains(e));
                        } else {
                            assert(e == added);
                        }
                    }
                }
            }
            i += 1;
        }
        proof {
            if xs@.len() > 0 {
                let first = Edge { departure: m.start, destination: m.accepted, input: NFAInput(Some(xs@[0])) };
                assert(first.input.0 == Some(xs@[0]));
                assert(self.edges().contains(first));
                lemma_reachable_step(self.edges(), first);
            }
        }
        m
    }

    /// The automaton that takes one of the automata `ms`.
    pub fn alt(&mut self, ms: Vec<NFA>) -> (m: NFA)
        requires
            old(self).wf(),
            old(self).state_count() + 2 <= u32::MAX,
            forall|i: int|
                0 <= i < ms@.len() ==> (#[trigger] ms@[i]).start.0 < old(self).state_count()
                    && ms@[i].accepted.0 < old(self).state_count(),
        ensures
            final(self).wf(),
            final(self).state_count() == old(self).state_count() + 2,
            m.start.0 == old(self).state_count(),
            m.accepted.0 == old(self).state_count() + 1,
            forall|e: Edge|
                #![trigger final(self).edges().contains(e)]
                #![trigger old(self).edges().contains(e)]
                final(self).edges().contains(e) <==> (old(self).edges().contains(e) || exists|i: int|
                    0 <= i < ms@.len() && alt_edge(e, m, #[trigger] ms@[i])),
            (exists|i: int|
                0 <= i < ms@.len() && reachable(
                    old(self).edges(),
                    (#[trigger] ms@[i]).start.0,
                    ms@[i].accepted.0,
                )) ==> reachable(final(self).edges(), m.start.0, m.accepted.0),
    {
        let m = self.new_nfa();
        let mut i: usize = 0;
        while i < ms.len()
            invariant
                i <= ms@.len(),
                self.wf(),
                self.state_count() == old(self).state_count() + 2,
                m.start.0 == old(self).state_count(),
                m.accepted.0 == old(self).state_count() + 1,
                forall|k: int|
                    0 <= k < ms@.len() ==> (#[trigger] ms@[k]).start.0 < old(self).state_count()
                        && ms@[k].accepted.0 < old(self).state_count(),
                forall|e: Edge|
                    #![trigger self.edges().contains(e)]
                    self.edges().contains(e) <==> (old(self).edges().contains(e) || exists|k: int|
                        0 <= k < i && alt_edge(e, m, #[trigger] ms@[k])),
            decreases ms@.len() - i,
        {
            let ghost before = self.edges();
            let sub_start = ms[i].start;
            let sub_accepted = ms[i].accepted;
            let _ = self.add_arc(m.start, sub_start, NFAInput::epsilon());
            let ghost middle = self.edges();
            let _ = self.add_arc(sub_accepted, m.accepted, NFAInput::epsilon());
            proof {
                let first = Edge { departure: m.start, destination: sub_start, input: NFAInput(None) };
                let second = Edge { departure: sub_accepted, destination: m.accepted, input: NFAInput(None) };
                assert forall|e: Edge|
                    self.edges().contains(e) <==> (old(self).edges().contains(e) || exists|k: int|
                        0 <= k < i + 1 && alt_edge(e, m, #[trigger] ms@[k])) by {
                    if self.edges().contains(e) {
                        if e == second || e == first {
                            assert(alt_edge(e, m, ms@[i as int]));
                        } else {
                            assert(middle.contains(e));
                            assert(before.contains(e));
                        }
                    }
                    if old(self).edges().contains(e) {
                        assert(before.contains(e));
                        assert(middle.contains(e));
                    }
                    if exists|k: int| 0 <= k < i + 1 && alt_edge(e, m, #[trigger] ms@[k]) {
                        let k = choose|k: int| 0 <= k < i + 1 && alt_edge(e, m, #[trigger] ms@[k]);
                        if k < i {
                            assert(before.contains(e));
                            assert(middle.contains(e));
                        } else {
                            assert(e == first || e == second);
                            if e == first {
                                assert(middle.contains(e));
                            }
                        }
                    }
                }
            }
            i += 1;
        }
        proof {
            if exists|k: int|
                0 <= k < ms@.len() && reachable(
                    old(self).edges(),
                    (#[trigger] ms@[k]).start.0,
                    ms@[k].accepted.0,
                ) {
                let k = choose|k: int|
                    0 <= k < ms@.len() && reachable(
                        old(self).edges(),
                        (#[trigger] ms@[k]).start.0,
                        ms@[k].accepted.0,
                    );
                let first = Edge { departure: m.start, destination: ms@[k].start, input: NFAInput(None) };
                let second = Edge { departure: ms@[k].accepted, destination: m.accepted, input: NFAInput(None) };
                assert(alt_edge(first, m, ms@[k]));
                assert(alt_edge(second, m, ms@[k]));
                assert(self.edges().contains(first));
                assert(self.edges().contains(second));
                lemma_reachable_step(self.edges(), first);
                lemma_reachable_step(self.edges(), second);
                assert(edges_within(old(self).edges(), self.edges()));
                lemma_reachable_grows(old(self).edges(), self.edges(), ms@[k].start.0, ms@[k].accepted.0);
                lemma_reachable_trans(self.edges(), m.start.0, ms@[k].start.0, ms@[k].accepted.0);
                lemma_reachable_trans(self.edges(), m.start.0, ms@[k].accepted.0, m.accepted.0);
            }
        }
        m
    }

    /// The automaton that takes the automata `ms` one after the other.
    pub fn concat(&mut self, ms: Vec<NFA>) -> (m: NFA)
        requires
            old(self).wf(),
            old(self).state_count() + 2 <= u32::MAX,
            forall|i: int|
                0 <= i < ms@.len() ==> (#[trigger] ms@[i]).start.0 < old(self).state_count()
                    && ms@[i].accepted.0 < old(self).state_count(),
        ensures
            final(self).wf(),
            final(self).state_count() == old(self).state_count() + 2,
            m.start.0 == old(self).state_count(),
            m.accepted.0 == old(self).state_count() + 1,
            forall|e: Edge|
                #![trigger final(self).edges().contains(e)]
                #![trigger old(self).edges().contains(e)]
                final(self).edges().contains(e) <==> (old(self).edges().contains(e) || exists|i: int|
                    0 <= i <= ms@.len() && #[trigger] concat_edge(e, m, ms@, i)),
            (forall|i: int|
                0 <= i < ms@.len() ==> reachable(
                    old(self).edges(),
                    (#[trigger] ms@[i]).start.0,
                    ms@[i].accepted.0,
                )) ==> reachable(final(self).edges(), m.start.0, m.accepted.0),
    {
        let m = self.new_nfa();
        let mut last = m.start;
        let mut i: usize = 0;
        let ghost all_reach = forall|k: int|
            0 <= k < ms@.len() ==> reachable(
                old(self).edges(),
                (#[trigger] ms@[k]).start.0,
                ms@[k].accepted.0,
            );
        proof {
            lemma_reachable_refl(self.edges(), m.start.0);
        }
        while i < ms.len()
            invariant
                i <= ms@.len(),
                self.wf(),
                self.state_count() == old(self).state_count() + 2,
                m.start.0 == old(self).state_count(),
                m.accepted.0 == old(self).state_count() + 1,
                last.0 == link_from(m, ms@, i as int).0,
                last.0 < self.state_count(),
                forall|k: int|
                    0 <= k < ms@.len() ==> (#[trigger] ms@[k]).start.0 < old(self).state_count()
                        && ms@[k].accepted.0 < old(self).state_count(),
                all_reach == (forall|k: int|
                    0 <= k < ms@.len() ==> reachable(
                        old(self).edges(),
                        (#[trigger] ms@[k]).start.0,
                        ms@[k].accepted.0,
                    )),
                all_reach ==> reachable(self.edges(), m.start.0, last.0),
                edges_within(old(self).edges(), self.edges()),
                forall|e: Edge|
                    #![trigger self.edges().contains(e)]
                    self.edges().contains(e) <==> (old(self).edges().contains(e) || exists|k: int|
                        0 <= k < i && #[trigger] concat_edge(e, m, ms@, k)),
            decreases ms@.len() - i,
        {
            let ghost before = self.edges();
            let sub_start = ms[i].start;
            let sub_accepted = ms[i].accepted;
            let _ = self.add_arc(last, sub_start, NFAInput::epsilon());
            proof {
                let added = Edge { departure: last, destination: sub_start, input: NFAInput(None) };
                assert(concat_edge(added, m, ms@, i as int));
                assert forall|e: Edge|
                    self.edges().contains(e) <==> (old(self).edges().contains(e) || exists|k: int|
                        0 <= k < i + 1 && #[trigger] concat_edge(e, m, ms@, k)) by {
                    if self.edges().contains(e) && e != added {
                        assert(before.contains(e));
                    }
                    if old(self).edges().contains(e) {
                        assert(before.contains(e));
                    }
                    if exists|k: int| 0 <= k < i + 1 && #[trigger] concat_edge(e, m, ms@, k) {
                        let k = choose|k: int| 0 <= k < i + 1 && #[trigger] concat_edge(e, m, ms@, k);
                        if k < i {
                            assert(before.contains(e));
                        } else {
                            assert(e == added);
                        }
                    }
                }
                assert(edges_within(before, self.edges()));
                if all_reach {
                    lemma_reachable_grows(before, self.edges(), m.start.0, last.0);
                    assert(self.edges().contains(added));
                    lemma_reachable_step(self.edges(), added);
                    lemma_reachable_trans(self.edges(), m.start.0, last.0, sub_start.0);
                    assert(reachable(old(self).edges(), ms@[i as int].start.0, ms@[i as int].accepted.0));
                    lemma_reachable_grows(old(self).edges(), self.edges(), sub_start.0, sub_accepted.0);
                    lemma_reachable_trans(self.edges(), m.start.0, sub_start.0, sub_accepted.0);
                }
            }
            last = sub_accepted;
            i += 1;
        }
        let ghost before = self.edges();
        let _ = self.add_arc(last, m.accepted, NFAInput::epsilon());
        proof {
            let n = ms@.len() as int;
            let added = Edge { departure: last, destination: m.accepted, input: NFAInput(None) };
            assert(concat_edge(added, m, ms@, n));
            assert forall|e: Edge|
                self.edges().contains(e) <==> (old(self).edges().contains(e) || exists|k: int|
                    0 <= k <= ms@.len() && #[trigger] concat_edge(e, m, ms@, k)) by {
                if self.edges().contains(e) && e != added {
                    assert(before.contains(e));
                }
                if old(self).edges().contains(e) {
                    assert(before.contains(e));
                }
                if exists|k: int| 0 <= k <= ms@.len() && #[trigger] concat_edge(e, m, ms@, k) {
                    let k = choose|k: int| 0 <= k <= ms@.len() && #[trigger] concat_edge(e, m, ms@, k);
                    if k < n {
                        assert(before.contains(e));
                    } else {
                        assert(e == added);
                    }
                }
            }
            if all_reach {
                assert(edges_within(before, self.edges()));
                lemma_reachable_grows(before, self.edges(), m.start.0, last.0);
                assert(self.edges().contains(added));
                lemma_reachable_step(self.edges(), added);
                lemma_reachable_trans(self.edges(), m.start.0, last.0, m.accepted.0);
            }
        }
        m
    }

    /// The automaton that takes `m` once or more often: `m` itself, with a
    /// way back from its accepting state to its start.
    pub fn some(&mut self, m: NFA) -> (r: NFA)
        requires
            old(self).wf(),
            m.start.0 < old(self).state_count(),
            m.accepted.0 < old(self).state_count(),
        ensures
            final(self).wf(),
            final(self).state_count() == old(self).state_count(),
            r == m,
            forall|e: Edge|
                #![trigger final(self).edges().contains(e)]
                #![trigger old(self).edges().contains(e)]
                final(self).edges().contains(e) <==> (old(self).edges().contains(e) || e == (Edge {
                    departure: m.accepted,
                    destination: m.start,
                    input: NFAInput(None),
                })),
            reachable(old(self).edges(), m.start.0, m.accepted.0) ==> reachable(
                final(self).edges(),
                r.start.0,
                r.accepted.0,
            ),
    {
        let _ = self.add_arc(m.accepted, m.start, NFAInput::epsilon());
        proof {
            if reachable(old(self).edges(), m.start.0, m.accepted.0) {
                assert(edges_within(old(self).edges(), self.edges()));
                lemma_reachable_grows(old(self).edges(), self.edges(), m.start.0, m.accepted.0);
            }
        }
        m
    }

    /// The automaton that takes `m` or nothing.
    pub fn optional(&mut self, m: NFA) -> (r: NFA)
        requires
            old(self).wf(),
            old(self).state_count() + 2 <= u32::MAX,
            m.start.0 < old(self).state_count(),
            m.accepted.0 < old(self).state_count(),
        ensures
            final(self).wf(),
            final(self).state_count() == old(self).state_count() + 2,
            r.start.0 == old(self).state_count(),
            r.accepted.0 == old(self).state_count() + 1,
            forall|e: Edge|
                #![trigger final(self).edges().contains(e)]
                #![trigger old(self).edges().contains(e)]
                final(self).edges().contains(e) <==> (old(self).edges().contains(e) || e == (Edge {
                    departure: r.start,
                    destination: r.accepted,
                    input: NFAInput(None),
                }) || e == (Edge { departure: r.start, destination: m.start, input: NFAInput(None) }) || e
                    == (Edge { departure: m.accepted, destination: r.accepted, input: NFAInput(None) })),
            reachable(final(self).edges(), r.start.0, r.accepted.0),
    {
        let r = self.new_nfa();
        proof {
            let direct = Edge { departure: r.start, destination: r.accepted, input: NFAInput(None) };
            if self.edges().contains(direct) {
                let k = choose|k: int| 0 <= k < self.edges().len() && self.edges()[k] == direct;
                assert(old(self).edges()[k].departure.0 < old(self).state_count());
            }
        }
        self.new_arc(r.start, r.accepted, NFAInput::epsilon());
        let ghost first = self.edges();
        let _ = self.add_arc(r.start, m.start, NFAInput::epsilon());
        let ghost second = self.edges();
        let _ = self.add_arc(m.accepted, r.accepted, NFAInput::epsilon());
        proof {
            let direct = Edge { departure: r.start, destination: r.accepted, input: NFAInput(None) };
            assert(first.contains(direct));
            assert(second.contains(direct));
            assert(self.edges().contains(direct));
            lemma_reachable_step(self.edges(), direct);
            assert forall|e: Edge|
                self.edges().contains(e) <==> (old(self).edges().contains(e) || e == direct || e == (Edge {
                    departure: r.start,
                    destination: m.start,
                    input: NFAInput(None),
                }) || e == (Edge { departure: m.accepted, destination: r.accepted, input: NFAInput(None) })) by {
                if old(self).edges().contains(e) {
                    assert(first.contains(e));
                    assert(second.contains(e));
                }
                if e == direct {
                }
                if e == (Edge { departure: r.start, destination: m.start, input: NFAInput(None) }) {
                    assert(second.contains(e));
                }
                if self.edges().contains(e) {
                    if second.contains(e) {
                        if first.contains(e) {
                        }
                    }
                }
            }
        }
        r
    }

    /// The automaton of a classified regular expression: it accepts exactly
    /// the strings of blocks that the expression matches.
    pub fn build(&mut self, regex: &RegEx<Vec<u32>>) -> (m: NFA)
        requires
            old(self).wf(),
            old(self).state_count() + states_needed(*regex) <= u32::MAX,
        ensures
            final(self).wf(),
            final(self).state_count() == old(self).state_count() + states_needed(*regex),
            edges_within(old(self).edges(), final(self).edges()),
            added_above(old(self).edges(), final(self).edges(), old(self).state_count() as int),
            m.start.0 < final(self).state_count(),
            m.accepted.0 < final(self).state_count(),
            fragment(
                final(self).edges(),
                *regex,
                m,
                old(self).state_count() as int,
                final(self).state_count() as int,
            ),
            forall|w: Seq<u32>| nfa_accepts(final(self).edges(), m, w) <==> regex_matches(*regex, w),
            inhabited(*regex) ==> reachable(final(self).edges(), m.start.0, m.accepted.0),
            m == ends_of(*regex, old(self).state_count() as int),
            m.start.0 != m.accepted.0,
            grown_by(old(self).edges(), final(self).edges(), arcs_of(*regex, old(self).state_count() as int)),
        decreases regex,
    {
        let ghost before = self.edges();
        let ghost base = self.state_count() as int;
        proof {
            self.lemma_below();
            lemma_ends_apart(*regex, base);
        }
        match regex {
            RegEx::Atom(a) => {
                let m = self.atom(a.as_slice());
                proof {
                    lemma_atom(before, self.edges(), *a, m, base);
                    lemma_atom_shape(before, self.edges(), *a, m, base);
                }
                m
            },
            RegEx::Alt(rs) => {
                let ms = self.build_all(rs);
                let ghost edges = self.edges();
                let ghost parts = ms@;
                proof {
                    self.lemma_below();
                    if inhabited(*regex) {
                        let k = choose|k: int| 0 <= k < rs@.len() && inhabited(#[trigger] rs@[k]);
                        assert(reachable(self.edges(), ms@[k].start.0, ms@[k].accepted.0));
                    }
                }
                let m = self.alt(ms);
                proof {
                    reveal(alt_built);
                    assert(alt_built(edges, self.edges(), rs@, parts, m, base));
                    lemma_alt(before, edges, self.edges(), *rs, parts, m, base);
                    lemma_alt_shape(before, edges, self.edges(), *rs, parts, m, base);
                }
                m
            },
            RegEx::Concat(rs) => {
                let ms = self.build_all(rs);
                let ghost edges = self.edges();
                let ghost parts = ms@;
                proof {
                    self.lemma_below();
                    if inhabited(*regex) {
                        assert forall|k: int| 0 <= k < ms@.len() implies reachable(
                            self.edges(),
                            (#[trigger] ms@[k]).start.0,
                            ms@[k].accepted.0,
                        ) by {
                            assert(inhabited(rs@[k]));
                        }
                    }
                }
                let m = self.concat(ms);
                proof {
                    reveal(concat_built);
                    assert(concat_built(edges, self.edges(), rs@, parts, m, base));
                    lemma_concat(before, edges, self.edges(), *rs, parts, m, base);
                    lemma_concat_shape(before, edges, self.edges(), *rs, parts, m, base);
                }
                m
            },
            RegEx::OneOrMore(r) => {
                let m = self.build(r);
                let ghost edges = self.edges();
                let ghost top = self.state_count() as int;
                let m = self.some(m);
                proof {
                    assert(some_built(edges, self.edges(), **r, m, base, top));
                    lemma_some(edges, self.edges(), *r, m, base, top);
                    lemma_some_shape(before, edges, self.edges(), *r, m, base);
                }
                m
            },
            RegEx::Optional(r) => {
                let sub = self.build(r);
                let ghost edges = self.edges();
                let ghost top = self.state_count() as int;
                proof {
                    self.lemma_below();
                }
                let m = self.optional(sub);
                proof {
                    assert(m.start == NFAState(m.start.0) && m.accepted == NFAState(m.accepted.0));
                    assert(sub.start == NFAState(sub.start.0) && sub.accepted == NFAState(sub.accepted.0));
                    lemma_optional(edges, self.edges(), *r, sub, m, base, top);
                    lemma_optional_shape(before, edges, self.edges(), *r, sub, m, base);
                }
                m
            },
        }
    }

    /// The transitions of a builder run between states that it handed out.
    pub proof fn lemma_below(&self)
        requires
            self.wf(),
        ensures
            below(self.edges(), self.state_count() as int),
    {
        assert forall|e: Edge| #[trigger] self.edges().contains(e) implies e.departure.0 < self.state_count()
            && e.destination.0 < self.state_count() by {
            let i = choose|i: int| 0 <= i < self.edges().len() && self.edges()[i] == e;
            assert(self.edges()[i].departure.0 < self.state_count());
        }
    }

    fn build_all(&mut self, rs: &Vec<RegEx<Vec<u32>>>) -> (ms: Vec<NFA>)
        requires
            old(self).wf(),
            old(self).state_count() + sum_needed(rs@, rs@.len()) <= u32::MAX,
        ensures
            final(self).wf(),
            final(self).state_count() == old(self).state_count() + sum_needed(rs@, rs@.len()),
            edges_within(old(self).edges(), final(self).edges()),
            added_above(old(self).edges(), final(self).edges(), old(self).state_count() as int),
            ms@.len() == rs@.len(),
            forall|i: int|
                0 <= i < ms@.len() ==> (#[trigger] ms@[i]).start.0 < final(self).state_count()
                    && ms@[i].accepted.0 < final(self).state_count(),
            parts_built(final(self).edges(), rs@, ms@, old(self).state_count() as int),
            forall|i: int|
                0 <= i < ms@.len() && inhabited(rs@[i]) ==> reachable(
                    final(self).edges(),
                    (#[trigger] ms@[i]).start.0,
                    ms@[i].accepted.0,
                ),
            forall|i: int|
                0 <= i < ms@.len() ==> #[trigger] ms@[i] == part_ends(rs@, old(self).state_count() as int, i),
            grown_by(
                old(self).edges(),
                final(self).edges(),
                parts_arcs(rs@, old(self).state_count() as int, rs@.len()),
            ),
        decreases rs,
    {
        let mut ms: Vec<NFA> = Vec::new();
        let mut n: usize = 0;
        let ghost base = self.state_count() as int;
        while n < rs.len()
            invariant
                n <= rs@.len(),
                self.wf(),
                base == old(self).state_count(),
                old(self).state_count() + sum_needed(rs@, rs@.len()) <= u32::MAX,
                self.state_count() == old(self).state_count() + sum_needed(rs@, n as nat),
                edges_within(old(self).edges(), self.edges()),
                added_above(old(self).edges(), self.edges(), base),
                ms@.len() == n,
                forall|i: int| 0 <= i < ms@.len() ==> #[trigger] ms@[i] == part_ends(rs@, base, i),
                grown_by(old(self).edges(), self.edges(), parts_arcs(rs@, base, n as nat)),
                forall|i: int|
                    0 <= i < ms@.len() ==> (#[trigger] ms@[i]).start.0 < self.state_count()
                        && ms@[i].accepted.0 < self.state_count(),
                forall|i: int|
                    0 <= i < ms@.len() ==> fragment(
                        self.edges(),
                        rs@[i],
                        #[trigger] ms@[i],
                        part_lo(base, rs@, i),
                        part_lo(base, rs@, i + 1),
                    ),
                forall|i: int|
                    0 <= i < ms@.len() && inhabited(rs@[i]) ==> reachable(
                        self.edges(),
                        (#[trigger] ms@[i]).start.0,
                        ms@[i].accepted.0,
                    ),
            decreases rs@.len() - n,
        {
            let ghost before = self.edges();
            let ghost before_ms = ms@;
            let ghost lo = self.state_count() as int;
            proof {
                lemma_sum_needed_grows(rs@, (n + 1) as nat, rs@.len());
            }
            let m = self.build(&rs[n]);
            ms.push(m);
            proof {
                let done = parts_arcs(rs@, base, n as nat);
                let part = arcs_of(rs@[n as int], part_lo(base, rs@, n as int));
                assert(parts_arcs(rs@, base, (n + 1) as nat) == done + part);
                assert forall|e: Edge|
                    self.edges().contains(e) <==> old(self).edges().contains(e) || (done + part).contains(e) by {
                    lemma_contains_add(done, part, e);
                }
                assert forall|i: int| 0 <= i < ms@.len() implies #[trigger] ms@[i] == part_ends(rs@, base, i) by {
                    if i < n {
                        assert(ms@[i] == before_ms[i]);
                    }
                }
                assert forall|i: int| 0 <= i < ms@.len() && inhabited(rs@[i]) implies reachable(
                    self.edges(),
                    (#[trigger] ms@[i]).start.0,
                    ms@[i].accepted.0,
                ) by {
                    if i < n {
                        assert(ms@[i] == before_ms[i]);
                        lemma_reachable_grows(before, self.edges(), ms@[i].start.0, ms@[i].accepted.0);
                    }
                }
                assert forall|i: int| 0 <= i < ms@.len() implies fragment(
                    self.edges(),
                    rs@[i],
                    #[trigger] ms@[i],
                    part_lo(base, rs@, i),
                    part_lo(base, rs@, i + 1),
                ) by {
                    if i < n {
                        assert(ms@[i] == before_ms[i]);
                        lemma_sum_needed_grows(rs@, (i + 1) as nat, n as nat);
                        lemma_fragment_frame(
                            before,
                            self.edges(),
                            rs@[i],
                            ms@[i],
                            part_lo(base, rs@, i),
                            part_lo(base, rs@, i + 1),
                        );
                    }
                }
            }
            n += 1;
        }
        ms
    }

    /// The automaton `n` as a graph in the DOT language.
    pub fn debug_format_nfa(&self, n: &NFA) -> (text: String)
        ensures
            text@ == nfa_dot_text(self.edges(), *n),
    {
        let mut buffer = String::new();
        push_str(&mut buffer, "digraph {\n");
        push_str(&mut buffer, "  rankdir=\"LR\";\n");
        let ghost head = buffer@;
        let mut i: usize = 0;
        proof {
            assert(buffer@ =~= head + edge_lines(self.edges(), 0));
        }
        while i < self.transitions.len()
            invariant
                i <= self.transitions@.len(),
                buffer@ == head + edge_lines(self.edges(), i as nat),
            decreases self.transitions@.len() - i,
        {
            let e = self.transitions[i];
            let ghost before = buffer@;
            push_str(&mut buffer, "  ");
            push_decimal(&mut buffer, e.departure.0 as u64);
            push_str(&mut buffer, " -> ");
            push_decimal(&mut buffer, e.destination.0 as u64);
            push_str(&mut buffer, " [label=\"");
            match e.input.0 {
                None => {
                    push_str(&mut buffer, "\u{3b5}");
                },
                Some(c) => {
                    push_decimal(&mut buffer, c as u64);
                },
            }
            push_str(&mut buffer, "\"];\n");
            proof {
                assert(buffer@ =~= before + edge_line(e));
                assert(buffer@ =~= head + edge_lines(self.edges(), (i + 1) as nat));
            }
            i += 1;
        }
        push_str(&mut buffer, "  start [shape=\"plaintext\"];\n");
        push_str(&mut buffer, "  start -> ");
        push_decimal(&mut buffer, n.start.0 as u64);
        push_str(&mut buffer, ";\n");
        push_str(&mut buffer, "  ");
        push_decimal(&mut buffer, n.accepted.0 as u64);
        push_str(&mut buffer, " [shape=\"doublecircle\"];\n");
        push_str(&mut buffer, "}\n");
        proof {
            assert(head =~= "digraph {\n"@ + "  rankdir=\"LR\";\n"@);
            assert(buffer@ =~= nfa_dot_text(self.edges(), *n));
        }
        buffer
    }
}

/// The label of a transition in a graph: ε, or the number of the block.
pub open spec fn label_text(a: NFAInput) -> Seq<char> {
    match a.0 {
        None => "\u{3b5}"@,
        Some(c) => decimal(c as nat),
    }
}

/// The line of one transition in a graph.
pub open spec fn edge_line(e: Edge) -> Seq<char> {
    "  "@ + decimal(e.departure.0 as nat) + " -> "@ + decimal(e.destination.0 as nat) + " [label=\""@
        + label_text(e.input) + "\"];\n"@
}

/// The lines of the first `n` transitions.
pub open spec fn edge_lines(edges: Seq<Edge>, n: nat) -> Seq<char>
    decreases n,
{
    if n == 0 || n > edges.len() {
        Seq::empty()
    } else {
        edge_lines(edges, (n - 1) as nat) + edge_line(edges[n - 1])
    }
}

/// An automaton as a graph in the DOT language: one line for each transition
/// of the builder, in order, then the start and the accepting state.
pub open spec fn nfa_dot_text(edges: Seq<Edge>, n: NFA) -> Seq<char> {
    "digraph {\n"@ + "  rankdir=\"LR\";\n"@ + edge_lines(edges, edges.len()) + "  start [shape=\"plaintext\"];\n"@
        + "  start -> "@ + decimal(n.start.0 as nat) + ";\n"@ + "  "@ + decimal(n.accepted.0 as nat)
        + " [shape=\"doublecircle\"];\n"@ + "}\n"@
}

/// The number of states that the automaton of an expression takes.
pub open spec fn states_needed(r: RegEx<Vec<u32>>) -> nat
    decreases r, 0nat,
{
    match r {
        RegEx::Atom(_) => 2,
        RegEx::Alt(rs) => 2 + sum_needed(rs@, rs@.len()),
        RegEx::Concat(rs) => 2 + sum_needed(rs@, rs@.len()),
        RegEx::OneOrMore(x) => states_needed(*x),
        RegEx::Optional(x) => 2 + states_needed(*x),
    }
}

/// The number of states that the automata of the first `n` expressions take.
pub open spec fn sum_needed(rs: Seq<RegEx<Vec<u32>>>, n: nat) -> nat
    decreases rs, n,
{
    if n == 0 || n > rs.len() {
        0
    } else {
        sum_needed(rs, (n - 1) as nat) + states_needed(rs[n - 1])
    }
}

/// The number of states that the automaton of an expression takes; none if
/// it is more than a `u32` counts.
pub fn count_states(r: &RegEx<Vec<u32>>) -> (n: Option<u32>)
    ensures
        match n {
            Some(n) => n == states_needed(*r),
            None => states_needed(*r) > u32::MAX,
        },
    decreases r,
{
    match r {
        RegEx::Atom(_) => Some(2),
        RegEx::Alt(rs) => match count_all(rs) {
            Some(n) => n.checked_add(2),
            None => None,
        },
        RegEx::Concat(rs) => match count_all(rs) {
            Some(n) => n.checked_add(2),
            None => None,
        },
        RegEx::OneOrMore(x) => count_states(x),
        RegEx::Optional(x) => match count_states(x) {
            Some(n) => n.checked_add(2),
            None => None,
        },
    }
}

/// The number of states that the automata of the expressions take; none if
/// it is more than a `u32` counts.
fn count_all(rs: &Vec<RegEx<Vec<u32>>>) -> (n: Option<u32>)
    ensures
        match n {
            Some(n) => n == sum_needed(rs@, rs@.len()),
            None => sum_needed(rs@, rs@.len()) > u32::MAX,
        },
    decreases rs,
{
    let mut total: u32 = 0;
    let mut i: usize = 0;
    while i < rs.len()
        invariant
            i <= rs@.len(),
            total == sum_needed(rs@, i as nat),
        decreases rs@.len() - i,
    {
        proof {
            lemma_sum_needed_grows(rs@, (i + 1) as nat, rs@.len());
        }
        match count_states(&rs[i]) {
            Some(n) => match total.checked_add(n) {
                Some(t) => {
                    total = t;
                },
                None => {
                    return None;
                },
            },
            None => {
                return None;
            },
        }
        i += 1;
    }
    Some(total)
}

/// More expressions take no fewer states.
pub proof fn lemma_sum_needed_grows(rs: Seq<RegEx<Vec<u32>>>, a: nat, b: nat)
    requires
        a <= b <= rs.len(),
    ensures
        sum_needed(rs, a) <= sum_needed(rs, b),
    decreases b - a,
{
    if a < b {
        lemma_sum_needed_grows(rs, a, (b - 1) as nat);
    }
}

/// Whether the expression matches any string at all: an atom does if it
/// holds a block, an alternation if one alternative does, a concatenation if
/// every part does.
pub open spec fn inhabited(r: RegEx<Vec<u32>>) -> bool
    decreases r,
{
    match r {
        RegEx::Atom(v) => v@.len() > 0,
        RegEx::Alt(rs) => exists|i: int| 0 <= i < rs@.len() && inhabited(#[trigger] rs@[i]),
        RegEx::Concat(rs) => forall|i: int| 0 <= i < rs@.len() ==> inhabited(#[trigger] rs@[i]),
        RegEx::OneOrMore(x) => inhabited(*x),
        RegEx::Optional(_) => true,
    }
}

/// Whether `e` is one of the two transitions that tie the alternative `sub`
/// into the automaton `m`.
pub open spec fn alt_edge(e: Edge, m: NFA, sub: NFA) -> bool {
    ||| e == (Edge { departure: m.start, destination: sub.start, input: NFAInput(None) })
    ||| e == (Edge { departure: sub.accepted, destination: m.accepted, input: NFAInput(None) })
}

/// Where link `i` of a concatenation begins: at the start of the whole for
/// the first, at the accepting state of the part before it otherwise.
pub open spec fn link_from(m: NFA, ms: Seq<NFA>, i: int) -> NFAState {
    if i == 0 {
        m.start
    } else {
        ms[i - 1].accepted
    }
}

/// Where link `i` of a concatenation ends: at the start of part `i`, or at
/// the accepting state of the whole after the last part.
pub open spec fn link_to(m: NFA, ms: Seq<NFA>, i: int) -> NFAState {
    if i == ms.len() {
        m.accepted
    } else {
        ms[i].start
    }
}

/// Whether `e` is link `i` of the concatenation `m` of the parts `ms`.
pub open spec fn concat_edge(e: Edge, m: NFA, ms: Seq<NFA>, i: int) -> bool {
    e == (Edge { departure: link_from(m, ms, i), destination: link_to(m, ms, i), input: NFAInput(None) })
}

} // verus!
