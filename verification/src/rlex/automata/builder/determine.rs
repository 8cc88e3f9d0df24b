//! The subset construction: from the transitions of a builder to a
//! deterministic automaton over the same blocks.

use vstd::prelude::*;
use crate::rlex::automata::builder::{Builder, Edge, NFAInput, NFAState, NFA};
use crate::rlex::automata::language::{
    eps_edge,
    is_walk,
    key_lt,
    lemma_reaches_push,
    lemma_reaches_self,
    lemma_reaches_then_eps,
    lemma_split_last,
    lemma_step_of_member,
    moved,
    moves_sorted,
    nfa_accepts,
    nfa_reaches,
    run_from,
    spelled,
    step_of,
    sym_edge,
};
use crate::text::{decimal, push_decimal, push_str};
use crate::rlex::ordered::{insert, lemma_contains_push, lemma_increasing_gap, member, strictly_increasing};

verus! {

/// A deterministic automaton. State 0 is where it starts; a move that is
/// missing rejects.
pub struct DFA {
    state_count: u32,
    input_set: Vec<u32>,
    transitions: Vec<(u32, u32, u32)>,
    accepted_states: Vec<u32>,
}

impl DFA {
    /// The number of states.
    pub closed spec fn states(&self) -> u32 {
        self.state_count
    }

    /// The blocks that the automaton reads, in increasing order.
    pub closed spec fn alphabet(&self) -> Seq<u32> {
        self.input_set@
    }

    /// The moves `(state, block, next state)`, in increasing order of state
    /// and block.
    pub closed spec fn moves(&self) -> Seq<(u32, u32, u32)> {
        self.transitions@
    }

    /// The accepting states, in increasing order.
    pub closed spec fn accepting(&self) -> Seq<u32> {
        self.accepted_states@
    }

    /// The invariant of an automaton: its moves are sorted, read blocks of
    /// its alphabet and stay within its states, as do its accepting states.
    pub open spec fn wf(&self) -> bool {
        &&& self.states() >= 1
        &&& strictly_increasing(self.alphabet())
        &&& moves_sorted(self.moves())
        &&& forall|i: int|
            0 <= i < self.moves().len() ==> (#[trigger] self.moves()[i]).0 < self.states()
                && self.moves()[i].2 < self.states() && self.alphabet().contains(self.moves()[i].1)
        &&& strictly_increasing(self.accepting())
        &&& forall|i: int| 0 <= i < self.accepting().len() ==> (#[trigger] self.accepting()[i]) < self.states()
    }

    /// Whether the automaton accepts `w`: reading it from state 0 never
    /// misses a move and ends in an accepting state.
    pub open spec fn accepts(&self, w: Seq<u32>) -> bool {
        match run_from(self.moves(), 0, w) {
            Some(q) => self.accepting().contains(q),
            None => false,
        }
    }

    /// Puts an automaton together from its parts.
    pub(crate) fn from_parts(
        state_count: u32,
        input_set: Vec<u32>,
        transitions: Vec<(u32, u32, u32)>,
        accepted_states: Vec<u32>,
    ) -> (d: DFA)
        ensures
            d.states() == state_count,
            d.alphabet() == input_set@,
            d.moves() == transitions@,
            d.accepting() == accepted_states@,
    {
        DFA { state_count, input_set, transitions, accepted_states }
    }

    /// Takes the automaton apart: the number of its states, its alphabet,
    /// its moves and its accepting states.
    pub(crate) fn into_parts(self) -> (r: (u32, Vec<u32>, Vec<(u32, u32, u32)>, Vec<u32>))
        ensures
            r.0 == self.states(),
            r.1@ == self.alphabet(),
            r.2@ == self.moves(),
            r.3@ == self.accepting(),
    {
        (self.state_count, self.input_set, self.transitions, self.accepted_states)
    }

    /// The number of states.
    pub fn state_count(&self) -> (n: u32)
        ensures
            n == self.states(),
    {
        self.state_count
    }

    /// The blocks that the automaton reads.
    pub fn input_set(&self) -> (r: &Vec<u32>)
        ensures
            r@ == self.alphabet(),
    {
        &self.input_set
    }

    /// The moves of the automaton.
    pub fn transitions(&self) -> (r: &Vec<(u32, u32, u32)>)
        ensures
            r@ == self.moves(),
    {
        &self.transitions
    }

    /// The accepting states of the automaton.
    pub fn accepted_states(&self) -> (r: &Vec<u32>)
        ensures
            r@ == self.accepting(),
    {
        &self.accepted_states
    }
}

/// The line of one move in a graph.
pub open spec fn move_line(m: (u32, u32, u32)) -> Seq<char> {
    "  "@ + decimal(m.0 as nat) + " -> "@ + decimal(m.2 as nat) + " [label=\""@ + decimal(m.1 as nat)
        + "\"];\n"@
}

/// The lines of the first `n` moves.
pub open spec fn move_lines(moves: Seq<(u32, u32, u32)>, n: nat) -> Seq<char>
    decreases n,
{
    if n == 0 || n > moves.len() {
        Seq::empty()
    } else {
        move_lines(moves, (n - 1) as nat) + move_line(moves[n - 1])
    }
}

/// The line of one accepting state in a graph.
pub open spec fn accept_line(q: u32) -> Seq<char> {
    "  "@ + decimal(q as nat) + " [shape=\"doublecircle\"];\n"@
}

/// The lines of the first `n` accepting states.
pub open spec fn accept_lines(accepting: Seq<u32>, n: nat) -> Seq<char>
    decreases n,
{
    if n == 0 || n > accepting.len() {
        Seq::empty()
    } else {
        accept_lines(accepting, (n - 1) as nat) + accept_line(accepting[n - 1])
    }
}

/// A deterministic automaton as a graph in the DOT language: one line for
/// each move, in order, then the start, then one line for each accepting
/// state.
pub open spec fn dfa_dot_text(moves: Seq<(u32, u32, u32)>, accepting: Seq<u32>) -> Seq<char> {
    "digraph {\n"@ + "  rankdir=\"LR\";\n"@ + move_lines(moves, moves.len()) + "  start [shape=\"plaintext\"];\n"@
        + "  start -> 0;\n"@ + accept_lines(accepting, accepting.len()) + "}\n"@
}

impl DFA {
    /// The automaton as a graph in the DOT language.
    pub fn debug_format(&self) -> (text: String)
        ensures
            text@ == dfa_dot_text(self.moves(), self.accepting()),
    {
        let mut buffer = String::new();
        push_str(&mut buffer, "digraph {\n");
        push_str(&mut buffer, "  rankdir=\"LR\";\n");
        let ghost head = buffer@;
        let mut i: usize = 0;
        proof {
            assert(buffer@ =~= head + move_lines(self.moves(), 0));
        }
        while i < self.transitions.len()
            invariant
                i <= self.transitions@.len(),
                buffer@ == head + move_lines(self.moves(), i as nat),
            decreases self.transitions@.len() - i,
        {
            let m = self.transitions[i];
            let ghost before = buffer@;
            push_str(&mut buffer, "  ");
            push_decimal(&mut buffer, m.0 as u64);
            push_str(&mut buffer, " -> ");
            push_decimal(&mut buffer, m.2 as u64);
            push_str(&mut buffer, " [label=\"");
            push_decimal(&mut buffer, m.1 as u64);
            push_str(&mut buffer, "\"];\n");
            proof {
                assert(buffer@ =~= before + move_line(m));
                assert(buffer@ =~= head + move_lines(self.moves(), (i + 1) as nat));
            }
            i += 1;
        }
        push_str(&mut buffer, "  start [shape=\"plaintext\"];\n");
        push_str(&mut buffer, "  start -> 0;\n");
        let ghost middle = buffer@;
        let mut k: usize = 0;
        proof {
            assert(buffer@ =~= middle + accept_lines(self.accepting(), 0));
        }
        while k < self.accepted_states.len()
            invariant
                k <= self.accepted_states@.len(),
                buffer@ == middle + accept_lines(self.accepting(), k as nat),
            decreases self.accepted_states@.len() - k,
        {
            let q = self.accepted_states[k];
            let ghost before = buffer@;
            push_str(&mut buffer, "  ");
            push_decimal(&mut buffer, q as u64);
            push_str(&mut buffer, " [shape=\"doublecircle\"];\n");
            proof {
                assert(buffer@ =~= before + accept_line(q));
                assert(buffer@ =~= middle + accept_lines(self.accepting(), (k + 1) as nat));
            }
            k += 1;
        }
        push_str(&mut buffer, "}\n");
        proof {
            assert(head =~= "digraph {\n"@ + "  rankdir=\"LR\";\n"@);
            assert(buffer@ =~= dfa_dot_text(self.moves(), self.accepting()));
        }
        buffer
    }
}

/// State `t` is reached from a state of `seed` without reading anything.
pub open spec fn closure_of(edges: Seq<Edge>, seed: Seq<u32>, t: u32) -> bool {
    exists|i: int| 0 <= i < seed.len() && nfa_reaches(edges, #[trigger] seed[i], Seq::empty(), t)
}

/// `subset` holds exactly the states in which the nondeterministic automaton
/// may be after reading `w` from `start`.
pub open spec fn subset_is(edges: Seq<Edge>, start: u32, subset: Seq<u32>, w: Seq<u32>) -> bool {
    forall|t: u32| subset.contains(t) <==> nfa_reaches(edges, start, w, t)
}

/// The move of state `q` on block `c` is what the subset construction asks
/// for: it leads to the state whose subset holds exactly the states that the
/// subset of `q` moves to, and it is missing where there are none.
pub open spec fn step_ok(
    edges: Seq<Edge>,
    subsets: Seq<Vec<u32>>,
    moves: Seq<(u32, u32, u32)>,
    q: u32,
    c: u32,
) -> bool {
    match step_of(moves, q, c) {
        Some(t) => t < subsets.len() && forall|x: u32|
            subsets[t as int]@.contains(x) <==> moved(edges, subsets[q as int]@, c, x),
        None => forall|x: u32| !moved(edges, subsets[q as int]@, c, x),
    }
}

/// A deterministic automaton whose moves follow the subsets tracks the
/// nondeterministic one: after reading `w` it is in the state whose subset
/// holds the states reached on `w`, and it misses a move exactly when there
/// are none.
pub proof fn lemma_run_tracks(
    edges: Seq<Edge>,
    start: u32,
    subsets: Seq<Vec<u32>>,
    moves: Seq<(u32, u32, u32)>,
    w: Seq<u32>,
)
    requires
        subsets.len() >= 1,
        subset_is(edges, start, subsets[0]@, Seq::empty()),
        forall|q: u32, c: u32| q < subsets.len() ==> #[trigger] step_ok(edges, subsets, moves, q, c),
    ensures
        match run_from(moves, 0, w) {
            Some(q) => q < subsets.len() && subset_is(edges, start, subsets[q as int]@, w),
            None => forall|t: u32| !nfa_reaches(edges, start, w, t),
        },
    decreases w.len(),
{
    if w.len() == 0 {
        assert(w =~= Seq::empty());
    } else {
        let w0 = w.drop_last();
        let c = w.last();
        assert(w0.push(c) =~= w);
        lemma_run_tracks(edges, start, subsets, moves, w0);
        match run_from(moves, 0, w0) {
            Some(p) => {
                assert(step_ok(edges, subsets, moves, p, c));
                assert forall|t: u32| nfa_reaches(edges, start, w, t) <==> moved(
                    edges,
                    subsets[p as int]@,
                    c,
                    t,
                ) by {
                    lemma_reaches_push(edges, start, w0, c, subsets[p as int]@, t);
                }
            },
            None => {
                assert forall|t: u32| !nfa_reaches(edges, start, w, t) by {
                    if nfa_reaches(edges, start, w, t) {
                        let r = lemma_split_last(edges, start, w0, c, t);
                    }
                }
            },
        }
    }
}

/// A set of states that holds `s` and every state to which a transition
/// that reads nothing leads from one of its states holds all states reached
/// from `s` without reading.
proof fn lemma_closed_holds_reached(edges: Seq<Edge>, set: Seq<u32>, s: u32, t: u32)
    requires
        set.contains(s),
        forall|x: u32, y: u32| set.contains(x) && #[trigger] edges.contains(eps_edge(x, y)) ==> set.contains(y),
        nfa_reaches(edges, s, Seq::empty(), t),
    ensures
        set.contains(t),
{
    let walk = choose|walk: Seq<Edge>| #[trigger] is_walk(edges, walk, s, t) && spelled(walk) == Seq::<u32>::empty();
    lemma_closed_walk(edges, set, walk, s, t);
}

proof fn lemma_closed_walk(edges: Seq<Edge>, set: Seq<u32>, walk: Seq<Edge>, s: u32, t: u32)
    requires
        set.contains(s),
        forall|x: u32, y: u32| set.contains(x) && #[trigger] edges.contains(eps_edge(x, y)) ==> set.contains(y),
        is_walk(edges, walk, s, t),
        spelled(walk) == Seq::<u32>::empty(),
    ensures
        set.contains(t),
    decreases walk.len(),
{
    if walk.len() > 0 {
        let e = walk.last();
        let shorter = walk.drop_last();
        assert(edges.contains(walk[walk.len() - 1]));
        match e.input.0 {
            None => {
                assert(is_walk(edges, shorter, s, e.departure.0)) by {
                    assert forall|i: int| 0 <= i < shorter.len() implies edges.contains(#[trigger] shorter[i]) by {
                        assert(shorter[i] == walk[i]);
                    }
                    assert forall|i: int| 0 <= i < shorter.len() - 1 implies (#[trigger] shorter[i]).destination.0
                        == shorter[i + 1].departure.0 by {
                        assert(shorter[i] == walk[i]);
                        assert(shorter[i + 1] == walk[i + 1]);
                    }
                    if shorter.len() > 0 {
                        assert(shorter[0] == walk[0]);
                        assert(shorter.last() == walk[walk.len() - 2]);
                        assert(walk[walk.len() - 2].destination.0 == walk[walk.len() - 1].departure.0);
                    }
                }
                lemma_closed_walk(edges, set, shorter, s, e.departure.0);
                assert(e == eps_edge(e.departure.0, t));
            },
            Some(c) => {
                assert(spelled(walk) == spelled(shorter).push(c));
                assert(spelled(shorter).push(c).len() > 0);
            },
        }
    }
}

/// The subset construction at work: the transitions of the nondeterministic
/// automata, the blocks that occur on them, and a bound on the states.
pub struct Determiner {
    input_set: Vec<u32>,
    transitions: Vec<Edge>,
    state_bound: u32,
}

impl Determiner {
    /// The transitions.
    pub closed spec fn edges(&self) -> Seq<Edge> {
        self.transitions@
    }

    /// The blocks that occur on transitions, in increasing order.
    pub closed spec fn alphabet(&self) -> Seq<u32> {
        self.input_set@
    }

    /// All states are below this bound.
    pub closed spec fn bound(&self) -> u32 {
        self.state_bound
    }

    /// The invariant: transitions run between states below the bound, and
    /// the alphabet holds exactly the blocks that they read.
    pub open spec fn wf(&self) -> bool {
        &&& strictly_increasing(self.alphabet())
        &&& forall|i: int|
            0 <= i < self.edges().len() ==> (#[trigger] self.edges()[i]).departure.0 < self.bound()
                && self.edges()[i].destination.0 < self.bound()
        &&& forall|c: u32|
            self.alphabet().contains(c) <==> exists|i: int|
                0 <= i < self.edges().len() && (#[trigger] self.edges()[i]).input.0 == Some(c)
    }

    /// The states to which one transition leads from `s` on input `a`.
    pub fn trans_once(&self, s: NFAState, a: NFAInput) -> (r: Vec<u32>)
        requires
            self.wf(),
        ensures
            forall|t: u32|
                r@.contains(t) <==> self.edges().contains(
                    Edge { departure: s, destination: NFAState(t), input: a },
                ),
            forall|i: int| 0 <= i < r@.len() ==> r@[i] < self.bound(),
    {
        let mut r: Vec<u32> = Vec::new();
        let mut k: usize = 0;
        while k < self.transitions.len()
            invariant
                k <= self.transitions@.len(),
                self.wf(),
                forall|t: u32|
                    r@.contains(t) <==> self.edges().subrange(0, k as int).contains(
                        Edge { departure: s, destination: NFAState(t), input: a },
                    ),
                forall|i: int| 0 <= i < r@.len() ==> r@[i] < self.bound(),
            decreases self.transitions@.len() - k,
        {
            let e = self.transitions[k];
            let same_input = match (e.input.0, a.0) {
                (None, None) => true,
                (Some(x), Some(y)) => x == y,
                _ => false,
            };
            let ghost before = r@;
            let ghost prefix = self.edges().subrange(0, k as int);
            let ghost longer = self.edges().subrange(0, k + 1);
            let hit = e.departure.0 == s.0 && same_input;
            if hit {
                r.push(e.destination.0);
            }
            proof {
                assert(longer =~= prefix.push(e));
                assert forall|t: u32|
                    r@.contains(t) <==> longer.contains(
                        Edge { departure: s, destination: NFAState(t), input: a },
                    ) by {
                    let wanted = Edge { departure: s, destination: NFAState(t), input: a };
                    lemma_contains_push(prefix, e, wanted);
                    if hit {
                        lemma_contains_push(before, e.destination.0, t);
                        assert(e.destination == NFAState(e.destination.0));
                        assert(e.departure == s);
                        assert(e.input == a);
                    } else {
                        assert(e != wanted);
                    }
                }
                if hit {
                    assert(self.edges()[k as int].destination.0 < self.bound());
                    assert forall|i: int| 0 <= i < r@.len() implies r@[i] < self.bound() by {
                        if i < before.len() {
                            assert(r@[i] == before[i]);
                        }
                    }
                }
            }
            k += 1;
        }
        proof {
            assert(self.edges().subrange(0, self.edges().len() as int) =~= self.edges());
        }
        r
    }

    /// The states reached from the states of `seed` without reading.
    pub fn epsilon_closure(&self, seed: &Vec<u32>) -> (res: Vec<u32>)
        requires
            self.wf(),
            forall|i: int| 0 <= i < seed@.len() ==> seed@[i] < self.bound(),
        ensures
            strictly_increasing(res@),
            forall|t: u32| res@.contains(t) <==> closure_of(self.edges(), seed@, t),
            forall|i: int| 0 <= i < res@.len() ==> res@[i] < self.bound(),
    {
        let ghost edges = self.edges();
        let mut stack: Vec<u32> = Vec::new();
        let mut i: usize = 0;
        while i < seed.len()
            invariant
                i <= seed@.len(),
                stack@ == seed@.subrange(0, i as int),
            decreases seed@.len() - i,
        {
            stack.push(seed[i]);
            proof {
                assert(stack@ =~= seed@.subrange(0, i + 1));
            }
            i += 1;
        }
        proof {
            assert(stack@ =~= seed@);
            assert forall|x: u32| stack@.contains(x) implies closure_of(edges, seed@, x) by {
                let k = choose|k: int| 0 <= k < seed@.len() && seed@[k] == x;
                lemma_reaches_self(edges, x);
            }
        }
        let mut res: Vec<u32> = Vec::new();
        while stack.len() > 0
            invariant
                self.wf(),
                edges == self.edges(),
                strictly_increasing(res@),
                forall|k: int| 0 <= k < res@.len() ==> res@[k] < self.bound(),
                forall|k: int| 0 <= k < stack@.len() ==> stack@[k] < self.bound(),
                forall|x: u32| res@.contains(x) || stack@.contains(x) ==> closure_of(edges, seed@, x),
                forall|k: int|
                    0 <= k < seed@.len() ==> res@.contains(#[trigger] seed@[k]) || stack@.contains(seed@[k]),
                forall|x: u32, y: u32|
                    res@.contains(x) && #[trigger] edges.contains(eps_edge(x, y)) ==> res@.contains(y)
                        || stack@.contains(y),
            decreases self.bound() - res@.len(), stack@.len(),
        {
            let ghost stack_before = stack@;
            let ghost res_before = res@;
            let x = stack.pop().unwrap();
            proof {
                assert(stack@ =~= stack_before.drop_last());
                assert(x == stack_before.last());
                assert(stack_before.contains(x));
                assert forall|y: u32| stack_before.contains(y) implies stack@.contains(y) || y == x by {
                    let k = choose|k: int| 0 <= k < stack_before.len() && stack_before[k] == y;
                    if k < stack@.len() {
                        assert(stack@[k] == y);
                    }
                }
                assert forall|y: u32| stack@.contains(y) implies stack_before.contains(y) by {
                    let k = choose|k: int| 0 <= k < stack@.len() && stack@[k] == y;
                    assert(stack_before[k] == y);
                }
                assert forall|y: u32| stack@.contains(y) implies closure_of(edges, seed@, y) by {
                    assert(stack_before.contains(y));
                }
                assert(closure_of(edges, seed@, x));
                if res@.len() > 0 {
                    lemma_increasing_gap(res@, 0, res@.len() - 1);
                }
            }
            let added = insert(&mut res, x);
            proof {
                assert forall|k: int| 0 <= k < res@.len() implies res@[k] < self.bound() by {
                    assert(res@.contains(res@[k]));
                    if res@[k] != x {
                        assert(res_before.contains(res@[k]));
                    }
                }
                if res@.len() > 0 {
                    lemma_increasing_gap(res@, 0, res@.len() - 1);
                }
            }
            if added {
                let ghost stack_mid = stack@;
                let mut k: usize = 0;
                while k < self.transitions.len()
                    invariant
                        k <= self.transitions@.len(),
                        self.wf(),
                        edges == self.edges(),
                        res@.contains(x),
                        closure_of(edges, seed@, x),
                        forall|n: int| 0 <= n < stack@.len() ==> stack@[n] < self.bound(),
                        forall|y: u32| stack_mid.contains(y) ==> stack@.contains(y),
                        forall|y: u32| stack@.contains(y) ==> closure_of(edges, seed@, y),
                        forall|y: u32|
                            #[trigger] edges.subrange(0, k as int).contains(eps_edge(x, y)) ==> stack@.contains(
                                y,
                            ),
                    decreases self.transitions@.len() - k,
                {
                    let e = self.transitions[k];
                    let ghost inner_before = stack@;
                    let ghost prefix = edges.subrange(0, k as int);
                    let ghost longer = edges.subrange(0, k + 1);
                    let hit = e.departure.0 == x && e.input.0.is_none();
                    if hit {
                        stack.push(e.destination.0);
                    }
                    proof {
                        assert(longer =~= prefix.push(e));
                        assert(edges[k as int] == e);
                        assert(edges.contains(e));
                        assert forall|y: u32| inner_before.contains(y) implies stack@.contains(y) by {
                            if hit {
                                lemma_contains_push(inner_before, e.destination.0, y);
                            }
                        }
                        assert forall|y: u32| #[trigger] longer.contains(eps_edge(x, y)) implies stack@.contains(
                            y,
                        ) by {
                            lemma_contains_push(prefix, e, eps_edge(x, y));
                            if e == eps_edge(x, y) {
                                lemma_contains_push(inner_before, e.destination.0, y);
                            } else {
                                assert(prefix.contains(eps_edge(x, y)));
                                assert(inner_before.contains(y));
                            }
                        }
                        if hit {
                            assert(e == eps_edge(x, e.destination.0));
                            assert forall|y: u32| stack@.contains(y) implies closure_of(edges, seed@, y) by {
                                lemma_contains_push(inner_before, e.destination.0, y);
                                if y == e.destination.0 && !inner_before.contains(y) {
                                    let n = choose|n: int|
                                        0 <= n < seed@.len() && nfa_reaches(
                                            edges,
                                            #[trigger] seed@[n],
                                            Seq::empty(),
                                            x,
                                        );
                                    lemma_reaches_then_eps(edges, seed@[n], Seq::empty(), x, y);
                                }
                            }
                            assert forall|n: int| 0 <= n < stack@.len() implies stack@[n] < self.bound() by {
                                if n < inner_before.len() {
                                    assert(stack@[n] == inner_before[n]);
                                }
                            }
                        }
                    }
                    k += 1;
                }
                proof {
                    assert(edges.subrange(0, edges.len() as int) =~= edges);
                    assert forall|a: u32, b: u32|
                        res@.contains(a) && #[trigger] edges.contains(eps_edge(a, b)) implies res@.contains(b)
                            || stack@.contains(b) by {
                        if a != x {
                            assert(res_before.contains(a));
                            if res_before.contains(b) {
                            } else {
                                assert(stack_before.contains(b));
                                if b != x {
                                    assert(stack_mid.contains(b));
                                }
                            }
                        }
                    }
                    assert forall|n: int| 0 <= n < seed@.len() implies res@.contains(#[trigger] seed@[n])
                        || stack@.contains(seed@[n]) by {
                        if !res_before.contains(seed@[n]) {
                            assert(stack_before.contains(seed@[n]));
                            if seed@[n] != x {
                                assert(stack_mid.contains(seed@[n]));
                            }
                        }
                    }
                    assert forall|y: u32| res@.contains(y) || stack@.contains(y) implies closure_of(
                        edges,
                        seed@,
                        y,
                    ) by {
                        if res@.contains(y) && y != x {
                            assert(res_before.contains(y));
                        }
                    }
                }
            } else {
                proof {
                    assert(res@ == res_before);
                    assert forall|a: u32, b: u32|
                        res@.contains(a) && #[trigger] edges.contains(eps_edge(a, b)) implies res@.contains(b)
                            || stack@.contains(b) by {
                        if !res_before.contains(b) {
                            assert(stack_before.contains(b));
                        }
                    }
                    assert forall|n: int| 0 <= n < seed@.len() implies res@.contains(#[trigger] seed@[n])
                        || stack@.contains(seed@[n]) by {
                        if !res_before.contains(seed@[n]) {
                            assert(stack_before.contains(seed@[n]));
                        }
                    }
                }
            }
        }
        proof {
            assert forall|t: u32| closure_of(edges, seed@, t) implies res@.contains(t) by {
                let n = choose|n: int|
                    0 <= n < seed@.len() && nfa_reaches(edges, #[trigger] seed@[n], Seq::empty(), t);
                assert(res@.contains(seed@[n]));
                assert forall|x: u32, y: u32|
                    res@.contains(x) && #[trigger] edges.contains(eps_edge(x, y)) implies res@.contains(y) by {
                    assert(!stack@.contains(y));
                }
                lemma_closed_holds_reached(edges, res@, seed@[n], t);
            }
        }
        res
    }

    /// The states reached from `x` without reading.
    pub fn epsilon_closure_single(&self, x: NFAState) -> (res: Vec<u32>)
        requires
            self.wf(),
            x.0 < self.bound(),
        ensures
            strictly_increasing(res@),
            forall|t: u32| res@.contains(t) <==> nfa_reaches(self.edges(), x.0, Seq::empty(), t),
            forall|i: int| 0 <= i < res@.len() ==> res@[i] < self.bound(),
    {
        let mut seed: Vec<u32> = Vec::new();
        seed.push(x.0);
        let res = self.epsilon_closure(&seed);
        proof {
            assert forall|t: u32| res@.contains(t) <==> nfa_reaches(self.edges(), x.0, Seq::empty(), t) by {
                if closure_of(self.edges(), seed@, t) {
                    let n = choose|n: int|
                        0 <= n < seed@.len() && nfa_reaches(self.edges(), #[trigger] seed@[n], Seq::empty(), t);
                }
                if nfa_reaches(self.edges(), x.0, Seq::empty(), t) {
                    assert(seed@[0] == x.0);
                }
            }
        }
        res
    }

    /// The states to which the states of `s` move on block `c`: one
    /// transition that reads `c`, then any number that read nothing.
    pub fn transitioned(&self, s: &Vec<u32>, c: u32) -> (res: Vec<u32>)
        requires
            self.wf(),
        ensures
            strictly_increasing(res@),
            forall|t: u32| res@.contains(t) <==> moved(self.edges(), s@, c, t),
            forall|i: int| 0 <= i < res@.len() ==> res@[i] < self.bound(),
    {
        let ghost edges = self.edges();
        let mut seed: Vec<u32> = Vec::new();
        let mut i: usize = 0;
        while i < s.len()
            invariant
                i <= s@.len(),
                self.wf(),
                edges == self.edges(),
                forall|k: int| 0 <= k < seed@.len() ==> seed@[k] < self.bound(),
                forall|b: u32|
                    seed@.contains(b) <==> exists|a: u32|
                        s@.subrange(0, i as int).contains(a) && #[trigger] edges.contains(sym_edge(a, c, b)),
            decreases s@.len() - i,
        {
            let a = s[i];
            let ghost before = seed@;
            let ghost prefix = s@.subrange(0, i as int);
            let ghost longer = s@.subrange(0, i + 1);
            let mut next = self.trans_once(NFAState(a), NFAInput::new(c));
            let ghost found = next@;
            seed.append(&mut next);
            proof {
                assert(seed@ =~= before + found);
                assert(longer =~= prefix.push(a));
                assert forall|k: int| 0 <= k < seed@.len() implies seed@[k] < self.bound() by {
                    if k < before.len() {
                        assert(seed@[k] == before[k]);
                    } else {
                        assert(seed@[k] == found[k - before.len()]);
                    }
                }
                assert forall|b: u32|
                    seed@.contains(b) <==> exists|x: u32|
                        longer.contains(x) && #[trigger] edges.contains(sym_edge(x, c, b)) by {
                    if seed@.contains(b) {
                        let k = choose|k: int| 0 <= k < seed@.len() && seed@[k] == b;
                        if k < before.len() {
                            assert(before.contains(b));
                            let x = choose|x: u32|
                                prefix.contains(x) && #[trigger] edges.contains(sym_edge(x, c, b));
                            lemma_contains_push(prefix, a, x);
                        } else {
                            assert(found[k - before.len()] == b);
                            assert(found.contains(b));
                            assert(edges.contains(sym_edge(a, c, b)));
                            lemma_contains_push(prefix, a, a);
                        }
                    }
                    if exists|x: u32| longer.contains(x) && #[trigger] edges.contains(sym_edge(x, c, b)) {
                        let x = choose|x: u32|
                            longer.contains(x) && #[trigger] edges.contains(sym_edge(x, c, b));
                        lemma_contains_push(prefix, a, x);
                        if x == a {
                            assert(found.contains(b));
                            let k = choose|k: int| 0 <= k < found.len() && found[k] == b;
                            assert(seed@[before.len() + k] == b);
                        } else {
                            assert(before.contains(b));
                            let k = choose|k: int| 0 <= k < before.len() && before[k] == b;
                            assert(seed@[k] == b);
                        }
                    }
                }
            }
            i += 1;
        }
        let res = self.epsilon_closure(&seed);
        proof {
            assert(s@.subrange(0, s@.len() as int) =~= s@);
            assert forall|t: u32| res@.contains(t) <==> moved(edges, s@, c, t) by {
                if closure_of(edges, seed@, t) {
                    let n = choose|n: int|
                        0 <= n < seed@.len() && nfa_reaches(edges, #[trigger] seed@[n], Seq::empty(), t);
                    assert(seed@.contains(seed@[n]));
                    let a = choose|a: u32| s@.contains(a) && #[trigger] edges.contains(sym_edge(a, c, seed@[n]));
                }
                if moved(edges, s@, c, t) {
                    let (a, b) = choose|a: u32, b: u32|
                        s@.contains(a) && #[trigger] edges.contains(sym_edge(a, c, b)) && nfa_reaches(
                            edges,
                            b,
                            Seq::empty(),
                            t,
                        );
                    assert(seed@.contains(b));
                    let n = choose|n: int| 0 <= n < seed@.len() && seed@[n] == b;
                }
            }
        }
        res
    }
}

/// The subsets of the states of the deterministic automaton, as found so
/// far: each is a set in increasing order, not empty, the set of states
/// reached on the word beside it, and none occurs twice.
pub open spec fn subsets_ok(edges: Seq<Edge>, start: u32, subsets: Seq<Vec<u32>>, words: Seq<Seq<u32>>) -> bool {
    &&& words.len() == subsets.len()
    &&& forall|q: int|
        0 <= q < subsets.len() ==> strictly_increasing((#[trigger] subsets[q])@) && subsets[q]@.len() > 0
            && subset_is(edges, start, subsets[q]@, words[q])
    &&& forall|i: int, j: int|
        0 <= i < j < subsets.len() ==> (#[trigger] subsets[i])@ != (#[trigger] subsets[j])@
}

/// On `u` and on `v` the nondeterministic automaton reaches the same states.
pub open spec fn same_reach(edges: Seq<Edge>, start: u32, u: Seq<u32>, v: Seq<u32>) -> bool {
    forall|t: u32| nfa_reaches(edges, start, u, t) <==> nfa_reaches(edges, start, v, t)
}

/// On `w` the nondeterministic automaton reaches some state.
pub open spec fn reaches_some(edges: Seq<Edge>, start: u32, w: Seq<u32>) -> bool {
    exists|t: u32| nfa_reaches(edges, start, w, t)
}

/// On each of the words the automaton reaches some state, and on no two of
/// them the same states.
pub open spec fn distinct_words(edges: Seq<Edge>, start: u32, words: Seq<Seq<u32>>) -> bool {
    &&& forall|i: int| 0 <= i < words.len() ==> reaches_some(edges, start, #[trigger] words[i])
    &&& forall|i: int, j: int|
        0 <= i < j < words.len() ==> !same_reach(edges, start, #[trigger] words[i], #[trigger] words[j])
}

/// The deterministic automaton would have more states than a `u32` counts:
/// there are that many words on each of which the nondeterministic automaton
/// reaches some state, and no two on which it reaches the same states.
pub open spec fn too_many_subsets(edges: Seq<Edge>, start: u32) -> bool {
    exists|words: Seq<Seq<u32>>| #[trigger] distinct_words(edges, start, words) && words.len() > u32::MAX
}

/// Two different sets are the states reached on two words on which the
/// automaton does not reach the same states.
proof fn lemma_different_subsets(edges: Seq<Edge>, start: u32, a: Seq<u32>, u: Seq<u32>, b: Seq<u32>, v: Seq<u32>)
    requires
        strictly_increasing(a),
        strictly_increasing(b),
        subset_is(edges, start, a, u),
        subset_is(edges, start, b, v),
        a != b,
    ensures
        !same_reach(edges, start, u, v),
{
    if same_reach(edges, start, u, v) {
        assert forall|y: u32| a.contains(y) <==> b.contains(y) by {
            assert(nfa_reaches(edges, start, u, y) <==> nfa_reaches(edges, start, v, y));
        }
        crate::rlex::ordered::lemma_increasing_unique(a, b);
    }
}

/// A move that is kept, among more subsets and more moves, is still what the
/// subset construction asks for.
proof fn lemma_step_ok_kept(
    edges: Seq<Edge>,
    subsets: Seq<Vec<u32>>,
    more_subsets: Seq<Vec<u32>>,
    moves: Seq<(u32, u32, u32)>,
    more_moves: Seq<(u32, u32, u32)>,
    q: u32,
    c: u32,
)
    requires
        step_ok(edges, subsets, moves, q, c),
        q < subsets.len(),
        subsets.len() <= more_subsets.len(),
        forall|k: int| 0 <= k < subsets.len() ==> more_subsets[k] == subsets[k],
        moves_sorted(more_moves),
        forall|t: u32| more_moves.contains((q, c, t)) <==> moves.contains((q, c, t)),
    ensures
        step_ok(edges, more_subsets, more_moves, q, c),
{
    match step_of(moves, q, c) {
        Some(t) => {
            assert(moves.contains((q, c, t)));
            lemma_step_of_member(more_moves, q, c, t);
        },
        None => {
            assert(step_of(more_moves, q, c).is_none());
        },
    }
}

/// The sets of states that were found, in the order in which they were
/// found: the place of a set is the state of the deterministic automaton.
pub struct StateCollector {
    states: Vec<Vec<u32>>,
}

impl StateCollector {
    /// The sets found so far.
    pub closed spec fn sets(&self) -> Seq<Vec<u32>> {
        self.states@
    }

    /// A collector without sets.
    pub fn new() -> (r: Self)
        ensures
            r.sets().len() == 0,
    {
        StateCollector { states: Vec::new() }
    }

    /// The number of sets.
    pub fn len(&self) -> (n: usize)
        ensures
            n == self.sets().len(),
    {
        self.states.len()
    }

    /// The set at place `i`.
    pub fn get(&self, i: usize) -> (r: &Vec<u32>)
        requires
            i < self.sets().len(),
        ensures
            *r == self.sets()[i as int],
    {
        &self.states[i]
    }

    /// The place of the set `s`, which is added at the end if it is new;
    /// `None` if it is new and no number is left for it.
    pub fn add_or_get_state_set(&mut self, s: Vec<u32>) -> (r: Option<u32>)
        requires
            old(self).sets().len() <= u32::MAX,
        ensures
            final(self).sets().len() <= u32::MAX,
            match r {
                Some(i) => {
                    &&& i < final(self).sets().len()
                    &&& final(self).sets()[i as int]@ == s@
                    &&& (final(self).sets() == old(self).sets() || (i == old(self).sets().len()
                        && final(self).sets() == old(self).sets().push(s) && forall|k: int|
                        0 <= k < old(self).sets().len() ==> (#[trigger] old(self).sets()[k])@ != s@))
                },
                None => {
                    &&& final(self).sets() == old(self).sets()
                    &&& old(self).sets().len() == u32::MAX
                    &&& forall|k: int| 0 <= k < old(self).sets().len() ==> (#[trigger] old(self).sets()[k])@ != s@
                },
            },
    {
        let mut i: usize = 0;
        while i < self.states.len()
            invariant
                i <= self.states@.len(),
                self.states@ == old(self).states@,
                self.states@.len() <= u32::MAX,
                forall|k: int| 0 <= k < i ==> (#[trigger] self.states@[k])@ != s@,
            decreases self.states@.len() - i,
        {
            if same_set(&self.states[i], &s) {
                return Some(i as u32);
            }
            i += 1;
        }
        if self.states.len() >= u32::MAX as usize {
            return None;
        }
        let n = self.states.len() as u32;
        self.states.push(s);
        Some(n)
    }
}

/// Whether two vectors hold the same numbers in the same order.
pub fn same_set(a: &Vec<u32>, b: &Vec<u32>) -> (r: bool)
    ensures
        r == (a@ == b@),
{
    if a.len() != b.len() {
        return false;
    }
    let mut i: usize = 0;
    while i < a.len()
        invariant
            i <= a@.len(),
            a@.len() == b@.len(),
            forall|k: int| 0 <= k < i ==> a@[k] == b@[k],
        decreases a@.len() - i,
    {
        if a[i] != b[i] {
            return false;
        }
        i += 1;
    }
    proof {
        assert(a@ =~= b@);
    }
    true
}

/// What the subset construction gives: the deterministic automaton, and for
/// each of its states the set of states of the nondeterministic automaton
/// that it stands for.
pub struct Determined {
    pub dfa: DFA,
    pub subsets: Vec<Vec<u32>>,
}

/// Every move stays below `p`, or leaves `p` on a block before place `j` of
/// the alphabet.
pub open spec fn moves_before(moves: Seq<(u32, u32, u32)>, p: u32, alphabet: Seq<u32>, j: int) -> bool {
    forall|i: int|
        0 <= i < moves.len() ==> (#[trigger] moves[i]).0 < p || (moves[i].0 == p && forall|n: int|
            j <= n < alphabet.len() ==> moves[i].1 < alphabet[n])
}

/// Every move leads to a state that has a subset, on a block of the
/// alphabet.
pub open spec fn moves_within(moves: Seq<(u32, u32, u32)>, states: int, alphabet: Seq<u32>) -> bool {
    forall|i: int| 0 <= i < moves.len() ==> (#[trigger] moves[i]).2 < states && alphabet.contains(moves[i].1)
}

/// Every state of every subset is below the bound.
pub open spec fn subsets_bounded(subsets: Seq<Vec<u32>>, bound: u32) -> bool {
    forall|q: int, k: int|
        0 <= q < subsets.len() && 0 <= k < subsets[q]@.len() ==> (#[trigger] subsets[q]@[k]) < bound
}

/// The subset construction in the middle of its work: the states below `p`
/// have all their moves, state `p` has those on the first `j` blocks of the
/// alphabet, and no other move has been made.
pub open spec fn scan_state(
    edges: Seq<Edge>,
    alphabet: Seq<u32>,
    start: u32,
    subsets: Seq<Vec<u32>>,
    words: Seq<Seq<u32>>,
    moves: Seq<(u32, u32, u32)>,
    p: u32,
    j: int,
) -> bool {
    &&& p < subsets.len() <= u32::MAX
    &&& 0 <= j <= alphabet.len()
    &&& strictly_increasing(alphabet)
    &&& subsets_ok(edges, start, subsets, words)
    &&& moves_sorted(moves)
    &&& moves_before(moves, p, alphabet, j)
    &&& moves_within(moves, subsets.len() as int, alphabet)
    &&& forall|q: u32, c: u32| q < p ==> #[trigger] step_ok(edges, subsets, moves, q, c)
    &&& forall|n: int| 0 <= n < j ==> step_ok(edges, subsets, moves, p, #[trigger] alphabet[n])
}

/// With one more subset than a `u32` counts, there are too many.
proof fn lemma_too_many(
    edges: Seq<Edge>,
    start: u32,
    subsets: Seq<Vec<u32>>,
    words: Seq<Seq<u32>>,
    extra: Seq<u32>,
    word: Seq<u32>,
)
    requires
        subsets_ok(edges, start, subsets, words),
        subsets.len() == u32::MAX,
        strictly_increasing(extra),
        extra.len() > 0,
        subset_is(edges, start, extra, word),
        forall|k: int| 0 <= k < subsets.len() ==> (#[trigger] subsets[k])@ != extra,
    ensures
        too_many_subsets(edges, start),
{
    let all = words.push(word);
    assert(all.len() > u32::MAX);
    assert forall|i: int| 0 <= i < all.len() implies reaches_some(edges, start, #[trigger] all[i]) by {
        if i < words.len() {
            assert(all[i] == words[i]);
            let x = subsets[i]@[0];
            assert(subsets[i]@.contains(x));
            assert(nfa_reaches(edges, start, words[i], x));
        } else {
            let x = extra[0];
            assert(extra.contains(x));
            assert(nfa_reaches(edges, start, word, x));
        }
    }
    assert forall|i: int, k: int| 0 <= i < k < all.len() implies !same_reach(
        edges,
        start,
        #[trigger] all[i],
        #[trigger] all[k],
    ) by {
        assert(all[i] == words[i]);
        if k < words.len() {
            assert(all[k] == words[k]);
            lemma_different_subsets(edges, start, subsets[i]@, words[i], subsets[k]@, words[k]);
        } else {
            lemma_different_subsets(edges, start, subsets[i]@, words[i], extra, word);
        }
    }
    assert(distinct_words(edges, start, all));
}

/// The subsets stay in order when a new one, different from all, is added.
proof fn lemma_subsets_ok_push(
    edges: Seq<Edge>,
    start: u32,
    subsets: Seq<Vec<u32>>,
    words: Seq<Seq<u32>>,
    extra: Vec<u32>,
    word: Seq<u32>,
)
    requires
        subsets_ok(edges, start, subsets, words),
        strictly_increasing(extra@),
        extra@.len() > 0,
        subset_is(edges, start, extra@, word),
        forall|k: int| 0 <= k < subsets.len() ==> (#[trigger] subsets[k])@ != extra@,
    ensures
        subsets_ok(edges, start, subsets.push(extra), words.push(word)),
{
    let more = subsets.push(extra);
    let more_words = words.push(word);
    assert forall|q: int| 0 <= q < more.len() implies strictly_increasing((#[trigger] more[q])@) && more[q]@.len()
        > 0 && subset_is(edges, start, more[q]@, more_words[q]) by {
        if q < subsets.len() {
            assert(more[q] == subsets[q]);
            assert(more_words[q] == words[q]);
        }
    }
    assert forall|i: int, k: int| 0 <= i < k < more.len() implies (#[trigger] more[i])@ != (#[trigger] more[k])@ by {
        assert(more[i] == subsets[i]);
        if k < subsets.len() {
            assert(more[k] == subsets[k]);
        }
    }
}

/// After the move of state `p` on block `alphabet[j]` was made, the subset
/// construction is one block further.
proof fn lemma_scan_moved(
    edges: Seq<Edge>,
    alphabet: Seq<u32>,
    start: u32,
    subsets: Seq<Vec<u32>>,
    more_subsets: Seq<Vec<u32>>,
    words: Seq<Seq<u32>>,
    more_words: Seq<Seq<u32>>,
    moves: Seq<(u32, u32, u32)>,
    p: u32,
    j: int,
    target: u32,
)
    requires
        scan_state(edges, alphabet, start, subsets, words, moves, p, j),
        j < alphabet.len(),
        subsets.len() <= more_subsets.len() <= u32::MAX,
        forall|k: int| 0 <= k < subsets.len() ==> more_subsets[k] == subsets[k],
        subsets_ok(edges, start, more_subsets, more_words),
        target < more_subsets.len(),
        forall|x: u32| more_subsets[target as int]@.contains(x) <==> moved(edges, subsets[p as int]@, alphabet[j], x),
    ensures
        scan_state(edges, alphabet, start, more_subsets, more_words, moves.push((p, alphabet[j], target)), p, j + 1),
{
    let a = alphabet[j];
    let new_move = (p, a, target);
    let more = moves.push(new_move);
    assert forall|x: int, y: int| 0 <= x < y < more.len() implies key_lt(#[trigger] more[x], #[trigger] more[y]) by {
        assert(more[x] == moves[x]);
        if y < moves.len() {
            assert(more[y] == moves[y]);
        } else {
            assert(moves[x].0 < p || moves[x].1 < alphabet[j]);
        }
    }
    assert(alphabet.contains(alphabet[j]));
    assert forall|i: int| 0 <= i < more.len() implies (#[trigger] more[i]).2 < more_subsets.len()
        && alphabet.contains(more[i].1) by {
        if i < moves.len() {
            assert(more[i] == moves[i]);
        }
    }
    assert forall|i: int| 0 <= i < more.len() implies (#[trigger] more[i]).0 < p || (more[i].0 == p && forall|
        n: int,
    | j + 1 <= n < alphabet.len() ==> more[i].1 < alphabet[n]) by {
        if i < moves.len() {
            assert(more[i] == moves[i]);
        }
    }
    assert forall|x: u32| !moves.contains((p, a, x)) by {
        if moves.contains((p, a, x)) {
            let i = choose|i: int| 0 <= i < moves.len() && moves[i] == (p, a, x);
            assert(moves[i].1 < alphabet[j]);
        }
    }
    assert forall|q: u32, c: u32| q < p implies #[trigger] step_ok(edges, more_subsets, more, q, c) by {
        assert(step_ok(edges, subsets, moves, q, c));
        assert forall|x: u32| more.contains((q, c, x)) <==> moves.contains((q, c, x)) by {
            lemma_contains_push(moves, new_move, (q, c, x));
        }
        lemma_step_ok_kept(edges, subsets, more_subsets, moves, more, q, c);
    }
    assert forall|n: int| 0 <= n < j + 1 implies step_ok(edges, more_subsets, more, p, #[trigger] alphabet[n]) by {
        let c = alphabet[n];
        if n < j {
            assert(step_ok(edges, subsets, moves, p, c));
            assert(alphabet[n] < alphabet[j]);
            assert forall|x: u32| more.contains((p, c, x)) <==> moves.contains((p, c, x)) by {
                lemma_contains_push(moves, new_move, (p, c, x));
            }
            lemma_step_ok_kept(edges, subsets, more_subsets, moves, more, p, c);
        } else {
            lemma_contains_push(moves, new_move, new_move);
            lemma_step_of_member(more, p, a, target);
            assert(more_subsets[p as int] == subsets[p as int]);
        }
    }
}

/// Where state `p` moves nowhere on block `alphabet[j]`, no move is made and
/// the subset construction is one block further.
proof fn lemma_scan_stuck(
    edges: Seq<Edge>,
    alphabet: Seq<u32>,
    start: u32,
    subsets: Seq<Vec<u32>>,
    words: Seq<Seq<u32>>,
    moves: Seq<(u32, u32, u32)>,
    p: u32,
    j: int,
)
    requires
        scan_state(edges, alphabet, start, subsets, words, moves, p, j),
        j < alphabet.len(),
        forall|x: u32| !moved(edges, subsets[p as int]@, alphabet[j], x),
    ensures
        scan_state(edges, alphabet, start, subsets, words, moves, p, j + 1),
{
    let a = alphabet[j];
    assert forall|x: u32| !moves.contains((p, a, x)) by {
        if moves.contains((p, a, x)) {
            let i = choose|i: int| 0 <= i < moves.len() && moves[i] == (p, a, x);
            assert(moves[i].1 < alphabet[j]);
        }
    }
    assert(step_of(moves, p, a).is_none());
    assert forall|n: int| 0 <= n < j + 1 implies step_ok(edges, subsets, moves, p, #[trigger] alphabet[n]) by {
    }
}

/// When state `p` has its moves on all blocks of the alphabet, the subset
/// construction goes on with the next state.
proof fn lemma_scan_next(
    edges: Seq<Edge>,
    alphabet: Seq<u32>,
    start: u32,
    subsets: Seq<Vec<u32>>,
    words: Seq<Seq<u32>>,
    moves: Seq<(u32, u32, u32)>,
    p: u32,
)
    requires
        scan_state(edges, alphabet, start, subsets, words, moves, p, alphabet.len() as int),
        forall|c: u32|
            alphabet.contains(c) <==> exists|i: int| 0 <= i < edges.len() && (#[trigger] edges[i]).input.0 == Some(c),
    ensures
        forall|q: u32, c: u32| q <= p ==> #[trigger] step_ok(edges, subsets, moves, q, c),
        forall|i: int| 0 <= i < moves.len() ==> (#[trigger] moves[i]).0 <= p,
        p + 1 < subsets.len() ==> scan_state(edges, alphabet, start, subsets, words, moves, (p + 1) as u32, 0),
{
    assert forall|q: u32, c: u32| q <= p implies #[trigger] step_ok(edges, subsets, moves, q, c) by {
        if q == p {
            if alphabet.contains(c) {
                let n = choose|n: int| 0 <= n < alphabet.len() && alphabet[n] == c;
                assert(step_ok(edges, subsets, moves, p, alphabet[n]));
            } else {
                assert forall|x: u32| !moves.contains((p, c, x)) by {
                    if moves.contains((p, c, x)) {
                        let i = choose|i: int| 0 <= i < moves.len() && moves[i] == (p, c, x);
                        assert(alphabet.contains(moves[i].1));
                    }
                }
                assert(step_of(moves, p, c).is_none());
                assert forall|x: u32| !moved(edges, subsets[p as int]@, c, x) by {
                    if moved(edges, subsets[p as int]@, c, x) {
                        let (y, z) = choose|y: u32, z: u32|
                            subsets[p as int]@.contains(y) && #[trigger] edges.contains(sym_edge(y, c, z))
                                && nfa_reaches(edges, z, Seq::empty(), x);
                        let i = choose|i: int| 0 <= i < edges.len() && edges[i] == sym_edge(y, c, z);
                        assert(edges[i].input.0 == Some(c));
                    }
                }
            }
        }
    }
    assert forall|i: int| 0 <= i < moves.len() implies (#[trigger] moves[i]).0 <= p by {
    }
    if p + 1 < subsets.len() {
        assert(moves_before(moves, (p + 1) as u32, alphabet, 0));
    }
}

/// Some move leads to state `q`.
pub open spec fn entered(moves: Seq<(u32, u32, u32)>, q: u32) -> bool {
    exists|k: int| 0 <= k < moves.len() && (#[trigger] moves[k]).2 == q
}

/// Some move before move `i` leads to state `q`.
pub open spec fn entered_before(moves: Seq<(u32, u32, u32)>, q: u32, i: int) -> bool {
    exists|k: int| 0 <= k < i && k < moves.len() && (#[trigger] moves[k]).2 == q
}

/// The states are numbered as they are found: state 0 is the start, and
/// among the moves, which are in order by state and then by block, the
/// first that leads to a state comes before the first that leads to a
/// state with a higher number.
pub open spec fn found_in_order(moves: Seq<(u32, u32, u32)>, count: int) -> bool {
    &&& forall|q: u32| 1 <= q < count ==> #[trigger] entered(moves, q)
    &&& forall|q: u32, i: int|
        1 <= q && 0 <= i < moves.len() && q < moves[i].2 ==> #[trigger] entered_before(moves, q, i)
}

/// A move to a state that is there, or to the one state that is new, keeps
/// the states numbered as they are found.
proof fn lemma_found_push(moves: Seq<(u32, u32, u32)>, count: int, more: int, new_move: (u32, u32, u32))
    requires
        found_in_order(moves, count),
        count >= 1,
        forall|i: int| 0 <= i < moves.len() ==> (#[trigger] moves[i]).2 < count,
        (more == count && new_move.2 < count) || (more == count + 1 && new_move.2 == count),
    ensures
        found_in_order(moves.push(new_move), more),
{
    let all = moves.push(new_move);
    assert forall|q: u32| 1 <= q < more implies #[trigger] entered(all, q) by {
        if q < count {
            assert(entered(moves, q));
            let k = choose|k: int| 0 <= k < moves.len() && (#[trigger] moves[k]).2 == q;
            assert(all[k].2 == q);
        } else {
            assert(all[moves.len() as int].2 == q);
        }
    }
    assert forall|q: u32, i: int| 1 <= q && 0 <= i < all.len() && q < all[i].2 implies #[trigger] entered_before(
        all,
        q,
        i,
    ) by {
        if i < moves.len() {
            assert(all[i] == moves[i]);
            assert(entered_before(moves, q, i));
            let k = choose|k: int| 0 <= k < i && k < moves.len() && (#[trigger] moves[k]).2 == q;
            assert(all[k].2 == q);
        } else {
            assert(q < count);
            assert(entered(moves, q));
            let k = choose|k: int| 0 <= k < moves.len() && (#[trigger] moves[k]).2 == q;
            assert(all[k].2 == q);
        }
    }
}

impl Determiner {
    /// Makes the move of state `p` on block `j` of the alphabet, if there is
    /// one. Says `false` if that takes a state for which no number is left.
    fn scan_one(
        &self,
        collector: &mut StateCollector,
        moves: &mut Vec<(u32, u32, u32)>,
        p: u32,
        j: usize,
        start: Ghost<u32>,
        words: Ghost<Seq<Seq<u32>>>,
    ) -> (r: (bool, Ghost<Seq<Seq<u32>>>))
        requires
            self.wf(),
            j < self.alphabet().len(),
            scan_state(self.edges(), self.alphabet(), start@, old(collector).sets(), words@, old(moves)@, p, j as int),
            subsets_bounded(old(collector).sets(), self.bound()),
            found_in_order(old(moves)@, old(collector).sets().len() as int),
        ensures
            r.0 ==> found_in_order(final(moves)@, final(collector).sets().len() as int),
            r.0 ==> scan_state(
                self.edges(),
                self.alphabet(),
                start@,
                final(collector).sets(),
                r.1@,
                final(moves)@,
                p,
                j + 1,
            ),
            r.0 ==> subsets_bounded(final(collector).sets(), self.bound()),
            r.0 ==> old(collector).sets().len() <= final(collector).sets().len(),
            r.0 ==> r.1@.len() > 0 && r.1@[0] == words@[0],
            r.0 ==> final(collector).sets()[0] == old(collector).sets()[0],
            !r.0 ==> too_many_subsets(self.edges(), start@),
    {
        let ghost edges = self.edges();
        let ghost alphabet = self.alphabet();
        let ghost sets_before = collector.sets();
        let a = self.input_set[j];
        let t = self.transitioned(collector.get(p as usize), a);
        let ghost word = words@[p as int].push(a);
        proof {
            assert(subset_is(edges, start@, sets_before[p as int]@, words@[p as int]));
            assert forall|x: u32| t@.contains(x) <==> nfa_reaches(edges, start@, word, x) by {
                lemma_reaches_push(edges, start@, words@[p as int], a, sets_before[p as int]@, x);
            }
        }
        if t.len() > 0 {
            let ghost extra = t;
            match collector.add_or_get_state_set(t) {
                Some(target) => {
                    let ghost more_words = if collector.sets() == sets_before {
                        words@
                    } else {
                        words@.push(word)
                    };
                    proof {
                        if collector.sets() != sets_before {
                            lemma_subsets_ok_push(edges, start@, sets_before, words@, extra, word);
                            assert forall|q: int, k: int|
                                0 <= q < collector.sets().len() && 0 <= k < collector.sets()[q]@.len() implies (
                            #[trigger] collector.sets()[q]@[k]) < self.bound() by {
                                if q < sets_before.len() {
                                    assert(collector.sets()[q] == sets_before[q]);
                                    assert(sets_before[q]@[k] < self.bound());
                                }
                            }
                        }
                        lemma_scan_moved(
                            edges,
                            alphabet,
                            start@,
                            sets_before,
                            collector.sets(),
                            words@,
                            more_words,
                            moves@,
                            p,
                            j as int,
                            target,
                        );
                        lemma_found_push(
                            moves@,
                            sets_before.len() as int,
                            collector.sets().len() as int,
                            (p, a, target),
                        );
                    }
                    moves.push((p, a, target));
                    (true, Ghost(more_words))
                },
                None => {
                    proof {
                        lemma_too_many(edges, start@, sets_before, words@, extra@, word);
                    }
                    (false, words)
                },
            }
        } else {
            proof {
                assert forall|x: u32| !moved(edges, sets_before[p as int]@, a, x) by {
                    if moved(edges, sets_before[p as int]@, a, x) {
                        assert(t@.contains(x));
                    }
                }
                lemma_scan_stuck(edges, alphabet, start@, sets_before, words@, moves@, p, j as int);
            }
            (true, words)
        }
    }

    /// The states of `subsets` that hold `x`.
    fn holders(subsets: &Vec<Vec<u32>>, x: u32) -> (r: Vec<u32>)
        requires
            subsets@.len() <= u32::MAX,
            forall|q: int| 0 <= q < subsets@.len() ==> strictly_increasing((#[trigger] subsets@[q])@),
        ensures
            strictly_increasing(r@),
            forall|q: u32| r@.contains(q) <==> q < subsets@.len() && subsets@[q as int]@.contains(x),
    {
        let mut r: Vec<u32> = Vec::new();
        let mut q: usize = 0;
        while q < subsets.len()
            invariant
                q <= subsets@.len() <= u32::MAX,
                forall|n: int| 0 <= n < subsets@.len() ==> strictly_increasing((#[trigger] subsets@[n])@),
                strictly_increasing(r@),
                forall|y: u32| r@.contains(y) <==> y < q && subsets@[y as int]@.contains(x),
            decreases subsets@.len() - q,
        {
            let ghost before = r@;
            let hit = member(subsets[q].as_slice(), x);
            if hit {
                r.push(q as u32);
            }
            proof {
                if hit {
                    assert forall|a: int, b: int| 0 <= a < b < r@.len() implies r@[a] < r@[b] by {
                        if b == before.len() {
                            assert(before.contains(before[a]));
                        }
                    }
                }
                assert forall|y: u32| r@.contains(y) <==> y < q + 1 && subsets@[y as int]@.contains(x) by {
                    if hit {
                        lemma_contains_push(before, q as u32, y);
                    }
                }
            }
            q += 1;
        }
        r
    }

    /// The deterministic automaton that accepts what `m` accepts; `None` if
    /// it would have more states than a `u32` counts.
    pub fn determine(&self, m: NFA) -> (r: Option<Determined>)
        requires
            self.wf(),
            m.start.0 < self.bound(),
        ensures
            match r {
                Some(d) => determined(self.edges(), self.alphabet(), m, d),
                None => too_many_subsets(self.edges(), m.start.0),
            },
            r is None <==> too_many_subsets(self.edges(), m.start.0),
    {
        let ghost edges = self.edges();
        let ghost start = m.start.0;
        let first = self.epsilon_closure_single(m.start);
        let mut collector = StateCollector::new();
        let mut moves: Vec<(u32, u32, u32)> = Vec::new();
        let ghost mut words: Seq<Seq<u32>> = seq![Seq::empty()];
        proof {
            lemma_reaches_self(edges, start);
            assert(first@.contains(start));
        }
        let ghost first_vec = first;
        let _ = collector.add_or_get_state_set(first);
        proof {
            assert(collector.sets() =~= seq![first_vec]);
            assert(subsets_ok(edges, start, collector.sets(), words));
            assert(moves_before(moves@, 0, self.alphabet(), 0));
            assert(scan_state(edges, self.alphabet(), start, collector.sets(), words, moves@, 0, 0));
            assert(subsets_bounded(collector.sets(), self.bound())) by {
                assert forall|q: int, k: int|
                    0 <= q < collector.sets().len() && 0 <= k < collector.sets()[q]@.len() implies (
                #[trigger] collector.sets()[q]@[k]) < self.bound() by {
                    assert(collector.sets()[q]@[k] == first_vec@[k]);
                }
            }
        }
        let mut processed: usize = 0;
        while processed < collector.len()
            invariant
                self.wf(),
                edges == self.edges(),
                start == m.start.0,
                processed <= collector.sets().len() <= u32::MAX,
                collector.sets().len() >= 1,
                words.len() > 0,
                words[0] == Seq::<u32>::empty(),
                subsets_ok(edges, start, collector.sets(), words),
                subsets_bounded(collector.sets(), self.bound()),
                moves_sorted(moves@),
                moves_within(moves@, collector.sets().len() as int, self.alphabet()),
                found_in_order(moves@, collector.sets().len() as int),
                processed < collector.sets().len() ==> scan_state(
                    edges,
                    self.alphabet(),
                    start,
                    collector.sets(),
                    words,
                    moves@,
                    processed as u32,
                    0,
                ),
                forall|q: u32, c: u32|
                    q < processed ==> #[trigger] step_ok(edges, collector.sets(), moves@, q, c),
                forall|i: int| 0 <= i < moves@.len() ==> (#[trigger] moves@[i]).0 < collector.sets().len(),
            decreases u32::MAX - processed,
        {
            let p = processed as u32;
            let mut j: usize = 0;
            while j < self.input_set.len()
                invariant
                    self.wf(),
                    edges == self.edges(),
                    start == m.start.0,
                    p == processed,
                    j <= self.alphabet().len(),
                    self.alphabet() == self.input_set@,
                    words.len() > 0,
                    words[0] == Seq::<u32>::empty(),
                    scan_state(edges, self.alphabet(), start, collector.sets(), words, moves@, p, j as int),
                    subsets_bounded(collector.sets(), self.bound()),
                    found_in_order(moves@, collector.sets().len() as int),
                decreases self.alphabet().len() - j,
            {
                let (ok, more_words) = self.scan_one(&mut collector, &mut moves, p, j, Ghost(start), Ghost(words));
                if !ok {
                    return None;
                }
                proof {
                    words = more_words@;
                }
                j += 1;
            }
            proof {
                lemma_scan_next(edges, self.alphabet(), start, collector.sets(), words, moves@, p);
                assert forall|i: int| 0 <= i < moves@.len() implies (#[trigger] moves@[i]).0
                    < collector.sets().len() by {
                    assert(moves@[i].0 <= p);
                }
            }
            processed += 1;
        }
        let accepted = Self::holders(&collector.states, m.accepted.0);
        let count = collector.len() as u32;
        let alphabet = copy_numbers(&self.input_set);
        let ghost subsets = collector.sets();
        let StateCollector { states } = collector;
        let dfa = DFA::from_parts(count, alphabet, moves, accepted);
        let d = Determined { dfa, subsets: states };
        proof {
            assert(d.subsets@ == subsets);
            lemma_determined(edges, self.alphabet(), m, d, words);
            lemma_not_too_many(edges, self.alphabet(), m, d);
        }
        Some(d)
    }
}

/// The alphabet holds exactly the blocks that the transitions read, in
/// increasing order.
pub open spec fn reads(edges: Seq<Edge>, alphabet: Seq<u32>) -> bool {
    &&& strictly_increasing(alphabet)
    &&& forall|c: u32|
        alphabet.contains(c) <==> exists|i: int| 0 <= i < edges.len() && (#[trigger] edges[i]).input.0 == Some(c)
}

/// What the subset construction promises of its result `d` for the
/// automaton `m` among the transitions `edges`: an automaton that is in
/// the state of a subset after exactly the strings on which `m` can be in
/// the states of the subset, with a state for every subset that is
/// reached, numbered as they are found.
pub open spec fn determined(edges: Seq<Edge>, alphabet: Seq<u32>, m: NFA, d: Determined) -> bool {
    &&& d.dfa.wf()
    &&& d.dfa.alphabet() == alphabet
    &&& d.subsets@.len() == d.dfa.states()
    &&& forall|w: Seq<u32>| d.dfa.accepts(w) <==> nfa_accepts(edges, m, w)
    &&& forall|w: Seq<u32>|
        match #[trigger] run_from(d.dfa.moves(), 0, w) {
            Some(q) => q < d.subsets@.len() && subset_is(edges, m.start.0, d.subsets@[q as int]@, w),
            None => !reaches_some(edges, m.start.0, w),
        }
    &&& forall|q: int|
        0 <= q < d.subsets@.len() ==> strictly_increasing((#[trigger] d.subsets@[q])@) && d.subsets@[q]@.len() > 0
            && exists|w: Seq<u32>| run_from(d.dfa.moves(), 0, w) == Some(q as u32)
    &&& forall|q: u32|
        d.dfa.accepting().contains(q) <==> q < d.subsets@.len() && d.subsets@[q as int]@.contains(m.accepted.0)
    &&& forall|i: int, j: int|
        0 <= i < j < d.subsets@.len() ==> (#[trigger] d.subsets@[i])@ != (#[trigger] d.subsets@[j])@
    &&& found_in_order(d.dfa.moves(), d.dfa.states() as int)
}

/// Where the subset construction has made its automaton, the states that
/// the nondeterministic automaton can be in together are no more than a
/// `u32` counts.
pub proof fn lemma_not_too_many(edges: Seq<Edge>, alphabet: Seq<u32>, m: NFA, d: Determined)
    requires
        determined(edges, alphabet, m, d),
    ensures
        !too_many_subsets(edges, m.start.0),
{
    let start = m.start.0;
    if too_many_subsets(edges, start) {
        let words = choose|words: Seq<Seq<u32>>| #[trigger] distinct_words(edges, start, words) && words.len() > u32::MAX;
        let states = Seq::new(
            words.len(),
            |i: int|
                match run_from(d.dfa.moves(), 0, words[i]) {
                    Some(q) => q as int,
                    None => 0,
                },
        );
        assert forall|i: int| 0 <= i < states.len() implies 0 <= #[trigger] states[i] < d.subsets@.len() by {
            assert(reaches_some(edges, start, words[i]));
            assert(run_from(d.dfa.moves(), 0, words[i]) is Some);
        }
        assert forall|i: int, j: int| 0 <= i < j < states.len() implies states[i] != states[j] by {
            assert(reaches_some(edges, start, words[i]));
            assert(reaches_some(edges, start, words[j]));
            let p = run_from(d.dfa.moves(), 0, words[i]);
            let q = run_from(d.dfa.moves(), 0, words[j]);
            assert(p is Some && q is Some);
            if p == q {
                let subset = d.subsets@[p->Some_0 as int]@;
                assert(subset_is(edges, start, subset, words[i]));
                assert(subset_is(edges, start, subset, words[j]));
                assert forall|t: u32| nfa_reaches(edges, start, words[i], t) <==> nfa_reaches(
                    edges,
                    start,
                    words[j],
                    t,
                ) by {
                    assert(subset.contains(t) <==> nfa_reaches(edges, start, words[i], t));
                    assert(subset.contains(t) <==> nfa_reaches(edges, start, words[j], t));
                }
                assert(same_reach(edges, start, words[i], words[j]));
            }
        }
        crate::rlex::partition_refinement::lemma_pigeonhole(states, d.subsets@.len() as int);
    }
}

/// The subset construction is sound: once every state has all its moves,
/// the deterministic automaton accepts what the nondeterministic one does.
proof fn lemma_determined(edges: Seq<Edge>, alphabet: Seq<u32>, m: NFA, d: Determined, words: Seq<Seq<u32>>)
    requires
        d.dfa.states() == d.subsets@.len(),
        d.subsets@.len() >= 1,
        d.dfa.alphabet() == alphabet,
        strictly_increasing(alphabet),
        subsets_ok(edges, m.start.0, d.subsets@, words),
        words[0] == Seq::<u32>::empty(),
        moves_sorted(d.dfa.moves()),
        moves_within(d.dfa.moves(), d.subsets@.len() as int, alphabet),
        forall|i: int| 0 <= i < d.dfa.moves().len() ==> (#[trigger] d.dfa.moves()[i]).0 < d.subsets@.len(),
        forall|q: u32, c: u32| q < d.subsets@.len() ==> #[trigger] step_ok(edges, d.subsets@, d.dfa.moves(), q, c),
        strictly_increasing(d.dfa.accepting()),
        forall|q: u32|
            d.dfa.accepting().contains(q) <==> q < d.subsets@.len() && d.subsets@[q as int]@.contains(m.accepted.0),
        found_in_order(d.dfa.moves(), d.dfa.states() as int),
    ensures
        determined(edges, alphabet, m, d),
{
    let subsets = d.subsets@;
    let start = m.start.0;
    let moves = d.dfa.moves();
    assert forall|i: int| 0 <= i < d.dfa.accepting().len() implies (#[trigger] d.dfa.accepting()[i]) < d.dfa.states() by {
        assert(d.dfa.accepting().contains(d.dfa.accepting()[i]));
    }
    assert forall|w: Seq<u32>|
        match #[trigger] run_from(moves, 0, w) {
            Some(q) => q < subsets.len() && subset_is(edges, start, subsets[q as int]@, w),
            None => !reaches_some(edges, start, w),
        } by {
        lemma_run_tracks(edges, start, subsets, moves, w);
        if reaches_some(edges, start, w) {
            let t = choose|t: u32| nfa_reaches(edges, start, w, t);
        }
    }
    assert forall|w: Seq<u32>| d.dfa.accepts(w) <==> nfa_accepts(edges, m, w) by {
        lemma_run_tracks(edges, start, subsets, moves, w);
        match run_from(moves, 0, w) {
            Some(x) => {
                assert(subset_is(edges, start, subsets[x as int]@, w));
            },
            None => {},
        }
    }
    assert forall|x: int| 0 <= x < subsets.len() implies strictly_increasing((#[trigger] subsets[x])@) && exists|
        w: Seq<u32>,
    | run_from(moves, 0, w) == Some(x as u32) by {
        lemma_run_tracks(edges, start, subsets, moves, words[x]);
        match run_from(moves, 0, words[x]) {
            Some(y) => {
                assert(subset_is(edges, start, subsets[y as int]@, words[x]));
                assert(subset_is(edges, start, subsets[x]@, words[x]));
                if y as int != x {
                    assert forall|z: u32| subsets[x]@.contains(z) <==> subsets[y as int]@.contains(z) by {
                        assert(nfa_reaches(edges, start, words[x], z) <==> subsets[x]@.contains(z));
                    }
                    crate::rlex::ordered::lemma_increasing_unique(subsets[x]@, subsets[y as int]@);
                    if (y as int) < x {
                        assert(subsets[y as int]@ != subsets[x]@);
                    } else {
                        assert(subsets[x]@ != subsets[y as int]@);
                    }
                }
            },
            None => {
                let z = subsets[x]@[0];
                assert(subsets[x]@.contains(z));
                assert(nfa_reaches(edges, start, words[x], z));
            },
        }
    }
}

/// A copy of a vector of numbers.
pub fn copy_numbers(v: &Vec<u32>) -> (r: Vec<u32>)
    ensures
        r@ == v@,
{
    let mut r: Vec<u32> = Vec::new();
    let mut i: usize = 0;
    while i < v.len()
        invariant
            i <= v@.len(),
            r@ == v@.subrange(0, i as int),
        decreases v@.len() - i,
    {
        r.push(v[i]);
        proof {
            assert(r@ =~= v@.subrange(0, i + 1));
        }
        i += 1;
    }
    proof {
        assert(r@ =~= v@);
    }
    r
}

impl Determiner {
    /// Sets the subset construction up for the given transitions: collects
    /// the blocks that occur on them.
    pub fn new(transitions: Vec<Edge>, state_bound: u32) -> (r: Self)
        requires
            forall|i: int|
                0 <= i < transitions@.len() ==> (#[trigger] transitions@[i]).departure.0 < state_bound
                    && transitions@[i].destination.0 < state_bound,
        ensures
            r.wf(),
            r.edges() == transitions@,
            r.bound() == state_bound,
    {
        let mut input_set: Vec<u32> = Vec::new();
        let mut k: usize = 0;
        while k < transitions.len()
            invariant
                k <= transitions@.len(),
                strictly_increasing(input_set@),
                forall|c: u32|
                    input_set@.contains(c) <==> exists|i: int|
                        0 <= i < k && (#[trigger] transitions@[i]).input.0 == Some(c),
            decreases transitions@.len() - k,
        {
            let ghost before = input_set@;
            match transitions[k].input.0 {
                Some(x) => {
                    let _ = insert(&mut input_set, x);
                },
                None => {},
            }
            proof {
                assert forall|c: u32|
                    input_set@.contains(c) <==> exists|i: int|
                        0 <= i < k + 1 && (#[trigger] transitions@[i]).input.0 == Some(c) by {
                    if before.contains(c) {
                        let i = choose|i: int| 0 <= i < k && (#[trigger] transitions@[i]).input.0 == Some(c);
                        assert(transitions@[i].input.0 == Some(c));
                    }
                    if exists|i: int| 0 <= i < k + 1 && (#[trigger] transitions@[i]).input.0 == Some(c) {
                        let i = choose|i: int| 0 <= i < k + 1 && (#[trigger] transitions@[i]).input.0 == Some(c);
                        if i < k {
                            assert(before.contains(c));
                        }
                    }
                    if transitions@[k as int].input.0 == Some(c) {
                    }
                }
            }
            k += 1;
        }
        Determiner { input_set, transitions, state_bound }
    }
}

impl Builder {
    /// The deterministic automaton, with the subset of each of its states,
    /// that accepts what `m` accepts among the transitions of the builder;
    /// `None` if it would have more states than a `u32` counts.
    pub fn finish_with_subsets(self, m: NFA) -> (r: Option<Determined>)
        requires
            self.wf(),
            m.start.0 < self.state_count(),
        ensures
            match r {
                Some(d) => determined(self.edges(), d.dfa.alphabet(), m, d) && reads(self.edges(), d.dfa.alphabet()),
                None => too_many_subsets(self.edges(), m.start.0),
            },
            r is None <==> too_many_subsets(self.edges(), m.start.0),
    {
        let (transitions, count) = self.into_parts();
        let determiner = Determiner::new(transitions, count);
        let r = determiner.determine(m);
        proof {
            if r.is_some() {
                assert(determined(self.edges(), determiner.alphabet(), m, r.unwrap()));
            }
        }
        r
    }

    /// The deterministic automaton that accepts what `m` accepts among the
    /// transitions of the builder; `None` if it would have more states than
    /// a `u32` counts.
    pub fn finish(self, m: NFA) -> (r: Option<DFA>)
        requires
            self.wf(),
            m.start.0 < self.state_count(),
        ensures
            match r {
                Some(d) => d.wf() && (forall|w: Seq<u32>| d.accepts(w) <==> nfa_accepts(self.edges(), m, w)) && reads(
                    self.edges(),
                    d.alphabet(),
                ) && exists|whole: Determined|
                    #[trigger] determined(self.edges(), d.alphabet(), m, whole) && whole.dfa == d,
                None => too_many_subsets(self.edges(), m.start.0),
            },
            r is None <==> too_many_subsets(self.edges(), m.start.0),
    {
        match self.finish_with_subsets(m) {
            Some(d) => {
                proof {
                    assert(determined(self.edges(), d.dfa.alphabet(), m, d));
                }
                Some(d.dfa)
            },
            None => None,
        }
    }
}

} // verus!
