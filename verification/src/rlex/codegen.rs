//! From tagged rules to one tagged deterministic automaton: the rules are
//! built side by side, the subset construction is run on the alternation of
//! them all, every state is tagged with the rule that accepts there, and two
//! rules that accept on one input are reported with an input that shows it.

use vstd::prelude::*;
use crate::rlex::ast::RegEx;
use crate::rlex::automata::builder::determine::{
    copy_numbers,
    determined,
    distinct_words,
    reaches_some,
    same_reach,
    subset_is,
    too_many_subsets,
    Determined,
};
use crate::rlex::automata::builder::{
    count_states,
    lemma_sum_needed_grows,
    sum_needed,
    Builder,
    Edge,
    NFAState,
    NFA,
};
use crate::rlex::automata::language::{moves_sorted, nfa_reaches, run_from, step_of};
use crate::rlex::automata::minimize::{
    find_move,
    label_after,
    lemma_run_within,
    live,
    minimal,
    minimize_labelled,
    moves_in,
};
use crate::rlex::automata::shape::{
    alt_links,
    arcs_of,
    grown_by,
    lemma_alt_links,
    lemma_contains_add,
    lemma_same_arcs_reach,
    part_ends,
    parts_arcs,
    same_arcs,
};
use crate::rlex::automata::thompson::{
    alt_built,
    fragment,
    lemma_alt_rule,
    lemma_fragment_frame,
    part_lo,
    regex_matches,
};
use crate::rlex::ordered::{lemma_contains_push, member, strictly_increasing};
use crate::text::{display_char, escaped, push_escaped, push_str, spec_display_char};

verus! {

/// A rule: a regular expression with the tag of the lexeme that it makes.
pub struct TaggedRegEx<Chr, Tag> {
    pub regex: RegEx<Chr>,
    pub tag: Tag,
}

/// A deterministic automaton whose accepting states each carry the number
/// of the rule that accepts there. State 0 is where it starts.
pub struct TaggedDFA {
    state_count: u32,
    input_set: Vec<u32>,
    transitions: Vec<(u32, u32, u32)>,
    tags: Vec<Option<u32>>,
}

impl TaggedDFA {
    /// The number of states.
    pub closed spec fn states(&self) -> u32 {
        self.state_count
    }

    /// The blocks that the automaton reads, in increasing order.
    pub closed spec fn alphabet(&self) -> Seq<u32> {
        self.input_set@
    }

    /// The moves `(state, block, next state)`, in increasing order of state
    /// and block.
    pub closed spec fn moves(&self) -> Seq<(u32, u32, u32)> {
        self.transitions@
    }

    /// The rule of each state, or none where no rule accepts.
    pub closed spec fn labels(&self) -> Seq<Option<u32>> {
        self.tags@
    }

    /// The invariant of a tagged automaton.
    pub open spec fn wf(&self) -> bool {
        &&& self.states() >= 1
        &&& self.labels().len() == self.states()
        &&& moves_sorted(self.moves())
        &&& moves_in(self.moves(), self.states() as int, self.alphabet())
    }

    /// The rule that accepts `w`, if one does.
    pub open spec fn tag_after(&self, w: Seq<u32>) -> Option<u32> {
        label_after(self.moves(), self.labels(), w)
    }

    /// No state is dead: from every state some string is accepted by a
    /// rule.
    pub open spec fn is_live(&self) -> bool {
        live(self.moves(), self.labels(), self.states() as int)
    }

    /// No two states are equivalent: for any two there is a string that
    /// gets different rules, or a rule and none, from them.
    pub open spec fn is_minimal(&self) -> bool {
        minimal(self.moves(), self.labels(), self.states() as int)
    }

    /// The number of states.
    pub fn state_count(&self) -> (n: u32)
        ensures
            n == self.states(),
    {
        self.state_count
    }

    /// The blocks that the automaton reads.
    pub fn input_set(&self) -> (r: &Vec<u32>)
        ensures
            r@ == self.alphabet(),
    {
        &self.input_set
    }

    /// The moves of the automaton.
    pub fn transitions(&self) -> (r: &Vec<(u32, u32, u32)>)
        ensures
            r@ == self.moves(),
    {
        &self.transitions
    }

    /// The rule that accepts in state `q`, if one does.
    pub fn accept_tag(&self, q: u32) -> (r: Option<u32>)
        requires
            self.wf(),
            q < self.states(),
        ensures
            r == self.labels()[q as int],
    {
        self.tags[q as usize]
    }

    /// The state after state `q` on block `c`, if there is a move.
    pub fn next_state(&self, q: u32, c: u32) -> (r: Option<u32>)
        requires
            self.wf(),
        ensures
            r == step_of(self.moves(), q, c),
    {
        find_move(&self.transitions, q, c)
    }
}

/// Two or more rules that accept the same input.
pub struct Conflict {
    /// The rules, by number, in the order of their declaration.
    pub rules: Vec<u32>,
    /// An input on which they all accept, as blocks of the alphabet.
    pub witness: Vec<u32>,
}

/// Why no automaton could be made.
pub enum GenError {
    /// Some rules accept the same input.
    Conflicts(Vec<Conflict>),
    /// The automaton would have more states than a `u32` counts.
    TooManyStates,
}

/// The rules that accept `w`: rule `i` does if a chain of transitions from
/// `start` to its accepting state reads `w`.
pub open spec fn rule_accepts(edges: Seq<Edge>, start: u32, accepts: Seq<u32>, i: u32, w: Seq<u32>) -> bool {
    i < accepts.len() && nfa_reaches(edges, start, w, accepts[i as int])
}

/// A conflict is in order: it names, in increasing order, exactly the rules
/// that accept its witness, they are two at least, and the witness is the
/// first of the inputs on which the automata reach the same states: none
/// of them is shorter, and none of those of its length comes before it.
pub open spec fn conflict_ok(edges: Seq<Edge>, start: u32, accepts: Seq<u32>, c: Conflict) -> bool {
    &&& c.rules@.len() >= 2
    &&& strictly_increasing(c.rules@)
    &&& forall|i: u32| c.rules@.contains(i) <==> rule_accepts(edges, start, accepts, i, c.witness@)
    &&& forall|w: Seq<u32>|
        #[trigger] same_reach(edges, start, w, c.witness@) ==> c.witness@.len() <= w.len() && (w.len()
            == c.witness@.len() ==> w == c.witness@ || lex_lt(c.witness@, w))
}

/// Some conflict shows the input `w`: on its witness the automata reach
/// the same states as on `w`.
pub open spec fn shown(edges: Seq<Edge>, start: u32, cs: Seq<Conflict>, w: Seq<u32>) -> bool {
    exists|k: int| 0 <= k < cs.len() && same_reach(edges, start, w, (#[trigger] cs[k]).witness@)
}

/// Every input that two rules accept is shown by a conflict, and no two
/// conflicts show the same.
pub open spec fn conflicts_complete(edges: Seq<Edge>, start: u32, accepts: Seq<u32>, cs: Seq<Conflict>) -> bool {
    &&& forall|w: Seq<u32>, i: u32, j: u32|
        i != j && #[trigger] rule_accepts(edges, start, accepts, i, w) && #[trigger] rule_accepts(
            edges,
            start,
            accepts,
            j,
            w,
        ) ==> shown(edges, start, cs, w)
    &&& forall|k: int, l: int|
        0 <= k < l < cs.len() ==> !same_reach(edges, start, (#[trigger] cs[k]).witness@, (#[trigger] cs[l]).witness@)
}

/// Inputs that lead the deterministic automaton to one state are inputs on
/// which the other automaton reaches the same states, and the other way
/// round.
proof fn lemma_same_state(
    edges: Seq<Edge>,
    alphabet: Seq<u32>,
    m: NFA,
    d: Determined,
    u: Seq<u32>,
    v: Seq<u32>,
    x: u32,
)
    requires
        determined(edges, alphabet, m, d),
        run_from(d.dfa.moves(), 0, u) == Some(x),
    ensures
        same_reach(edges, m.start.0, u, v) <==> run_from(d.dfa.moves(), 0, v) == Some(x),
{
    let start = m.start.0;
    assert(subset_is(edges, start, d.subsets@[x as int]@, u));
    match run_from(d.dfa.moves(), 0, v) {
        Some(y) => {
            assert(subset_is(edges, start, d.subsets@[y as int]@, v));
            if same_reach(edges, start, u, v) && y != x {
                assert forall|t: u32| d.subsets@[y as int]@.contains(t) <==> d.subsets@[x as int]@.contains(t) by {
                    assert(nfa_reaches(edges, start, u, t) <==> nfa_reaches(edges, start, v, t));
                }
                assert(strictly_increasing(d.subsets@[y as int]@));
                assert(strictly_increasing(d.subsets@[x as int]@));
                crate::rlex::ordered::lemma_increasing_unique(d.subsets@[y as int]@, d.subsets@[x as int]@);
                if y < x {
                    assert(d.subsets@[y as int]@ != d.subsets@[x as int]@);
                } else {
                    assert(d.subsets@[x as int]@ != d.subsets@[y as int]@);
                }
            }
            if y == x {
                assert forall|t: u32| nfa_reaches(edges, start, u, t) <==> nfa_reaches(edges, start, v, t) by {
                    assert(d.subsets@[x as int]@.contains(t) <==> nfa_reaches(edges, start, u, t));
                    assert(d.subsets@[x as int]@.contains(t) <==> nfa_reaches(edges, start, v, t));
                }
            }
        },
        None => {
            assert(!reaches_some(edges, start, v));
            if same_reach(edges, start, u, v) {
                let t = d.subsets@[x as int]@[0];
                assert(d.subsets@[x as int]@.contains(t));
                assert(nfa_reaches(edges, start, u, t));
                assert(nfa_reaches(edges, start, v, t));
            }
        },
    }
}

/// Conflicts that are in order and show the same are the same: where the
/// automata reach the same states on their witnesses, they have the same
/// witness and name the same rules.
pub proof fn lemma_conflict_unique(edges: Seq<Edge>, start: u32, accepts: Seq<u32>, a: Conflict, b: Conflict)
    requires
        conflict_ok(edges, start, accepts, a),
        conflict_ok(edges, start, accepts, b),
        same_reach(edges, start, a.witness@, b.witness@),
    ensures
        a.witness@ == b.witness@,
        a.rules@ == b.rules@,
{
    assert(same_reach(edges, start, b.witness@, a.witness@));
    lemma_lex_asymmetric(a.witness@, b.witness@);
    assert forall|i: u32| a.rules@.contains(i) <==> b.rules@.contains(i) by {
        assert(a.rules@.contains(i) <==> rule_accepts(edges, start, accepts, i, a.witness@));
        assert(b.rules@.contains(i) <==> rule_accepts(edges, start, accepts, i, b.witness@));
    }
    crate::rlex::ordered::lemma_increasing_unique(a.rules@, b.rules@);
}

/// What is reported of the conflicts of some rules is one thing only:
/// every conflict of one report that is in order and complete is, with the
/// same witness and the same rules, a conflict of every other such report.
pub proof fn lemma_conflicts_determined(
    edges: Seq<Edge>,
    start: u32,
    accepts: Seq<u32>,
    one: Seq<Conflict>,
    other: Seq<Conflict>,
    k: int,
) -> (l: int)
    requires
        0 <= k < one.len(),
        forall|i: int| 0 <= i < one.len() ==> conflict_ok(edges, start, accepts, #[trigger] one[i]),
        forall|i: int| 0 <= i < other.len() ==> conflict_ok(edges, start, accepts, #[trigger] other[i]),
        conflicts_complete(edges, start, accepts, other),
    ensures
        0 <= l < other.len(),
        other[l].witness@ == one[k].witness@,
        other[l].rules@ == one[k].rules@,
{
    let c = one[k];
    assert(conflict_ok(edges, start, accepts, c));
    let i = c.rules@[0];
    let j = c.rules@[1];
    assert(c.rules@.contains(i));
    assert(c.rules@.contains(j));
    assert(i < j);
    assert(rule_accepts(edges, start, accepts, i, c.witness@));
    assert(rule_accepts(edges, start, accepts, j, c.witness@));
    assert(shown(edges, start, other, c.witness@));
    let l = choose|l: int| 0 <= l < other.len() && same_reach(edges, start, c.witness@, (#[trigger] other[l]).witness@);
    lemma_conflict_unique(edges, start, accepts, c, other[l]);
    l
}

/// The rules whose accepting state is in `subset`, in increasing order.
pub fn tags_of(subset: &Vec<u32>, accepts: &Vec<u32>) -> (r: Vec<u32>)
    requires
        strictly_increasing(subset@),
        accepts@.len() <= u32::MAX,
    ensures
        strictly_increasing(r@),
        forall|i: u32| r@.contains(i) <==> i < accepts@.len() && subset@.contains(accepts@[i as int]),
{
    let mut r: Vec<u32> = Vec::new();
    let mut i: usize = 0;
    while i < accepts.len()
        invariant
            i <= accepts@.len() <= u32::MAX,
            strictly_increasing(subset@),
            strictly_increasing(r@),
            forall|k: int| 0 <= k < r@.len() ==> r@[k] < i,
            forall|x: u32| r@.contains(x) <==> x < i && subset@.contains(accepts@[x as int]),
        decreases accepts@.len() - i,
    {
        let ghost before = r@;
        let hit = member(subset.as_slice(), accepts[i]);
        if hit {
            r.push(i as u32);
        }
        proof {
            assert forall|x: u32| r@.contains(x) <==> x < i + 1 && subset@.contains(accepts@[x as int]) by {
                if hit {
                    lemma_contains_push(before, i as u32, x);
                }
            }
            assert forall|k: int| 0 <= k < r@.len() implies r@[k] < i + 1 by {
                if k < before.len() {
                    assert(r@[k] == before[k]);
                }
            }
        }
        i += 1;
    }
    r
}

/// The number of states for which no input has been found yet.
pub open spec fn missing(paths: Seq<Option<Vec<u32>>>) -> nat
    decreases paths.len(),
{
    if paths.len() == 0 {
        0
    } else {
        missing(paths.drop_last()) + if paths.last().is_none() {
            1nat
        } else {
            0nat
        }
    }
}

/// Finding an input for one more state leaves one state fewer without.
proof fn lemma_missing_update(paths: Seq<Option<Vec<u32>>>, i: int, v: Vec<u32>)
    requires
        0 <= i < paths.len(),
        paths[i].is_none(),
    ensures
        missing(paths.update(i, Some(v))) + 1 == missing(paths),
    decreases paths.len(),
{
    let updated = paths.update(i, Some(v));
    if i == paths.len() - 1 {
        assert(updated.drop_last() =~= paths.drop_last());
    } else {
        lemma_missing_update(paths.drop_last(), i, v);
        assert(updated.drop_last() =~= paths.drop_last().update(i, Some(v)));
    }
}

/// No more states are without an input than there are states.
proof fn lemma_missing_bound(paths: Seq<Option<Vec<u32>>>)
    ensures
        missing(paths) <= paths.len(),
    decreases paths.len(),
{
    if paths.len() > 0 {
        lemma_missing_bound(paths.drop_last());
    }
}

/// A set of states that holds state 0 and every state to which one of its
/// states moves holds every state that the automaton can be in.
proof fn lemma_found_all(moves: Seq<(u32, u32, u32)>, paths: Seq<Option<Vec<u32>>>, w: Seq<u32>)
    requires
        paths.len() >= 1,
        paths[0].is_some(),
        forall|i: int| 0 <= i < moves.len() ==> (#[trigger] moves[i]).2 < paths.len(),
        forall|q: u32, a: u32|
            q < paths.len() && paths[q as int].is_some() ==> match #[trigger] step_of(moves, q, a) {
                Some(t) => paths[t as int].is_some(),
                None => true,
            },
    ensures
        match run_from(moves, 0, w) {
            Some(q) => q < paths.len() && paths[q as int].is_some(),
            None => true,
        },
    decreases w.len(),
{
    if w.len() > 0 {
        lemma_found_all(moves, paths, w.drop_last());
        lemma_run_within(moves, paths.len() as int, w);
        match run_from(moves, 0, w.drop_last()) {
            Some(p) => {
                assert(match step_of(moves, p, w.last()) {
                    Some(t) => paths[t as int].is_some(),
                    None => true,
                });
            },
            None => {},
        }
    }
}

/// The length of the input that was found for state `x`.
pub open spec fn path_len(paths: Seq<Option<Vec<u32>>>, x: int) -> int {
    match paths[x] {
        Some(w) => w@.len() as int,
        None => 0,
    }
}

/// No input that leads the automaton from state 0 to state `x` is shorter
/// than `n`.
pub open spec fn none_shorter(moves: Seq<(u32, u32, u32)>, x: u32, n: int) -> bool {
    forall|w: Seq<u32>| #[trigger] run_from(moves, 0, w) == Some(x) ==> n <= w.len()
}

/// Every state to which an input of length `n` at most leads has its input.
pub open spec fn found_upto(moves: Seq<(u32, u32, u32)>, paths: Seq<Option<Vec<u32>>>, n: int) -> bool {
    forall|w: Seq<u32>|
        w.len() <= n ==> match #[trigger] run_from(moves, 0, w) {
            Some(x) => x < paths.len() && paths[x as int].is_some(),
            None => true,
        }
}

/// The states of the queue come in the order of the lengths of their
/// inputs.
pub open spec fn queue_ordered(paths: Seq<Option<Vec<u32>>>, queue: Seq<u32>) -> bool {
    forall|k: int, j: int| 0 <= k < j < queue.len() ==> path_len(paths, queue[k] as int) <= path_len(paths, queue[j] as int)
}

/// The input of no state of the queue is longer than `n`.
pub open spec fn queue_below(paths: Seq<Option<Vec<u32>>>, queue: Seq<u32>, n: int) -> bool {
    forall|k: int| 0 <= k < queue.len() ==> path_len(paths, #[trigger] queue[k] as int) <= n
}

/// The input of every state that has one is a shortest one.
pub open spec fn all_shortest(moves: Seq<(u32, u32, u32)>, paths: Seq<Option<Vec<u32>>>) -> bool {
    forall|x: int| 0 <= x < paths.len() && (#[trigger] paths[x]).is_some() ==> none_shorter(moves, x as u32, path_len(paths, x))
}

/// The input that was found for state `x`.
pub open spec fn word_at(paths: Seq<Option<Vec<u32>>>, x: int) -> Seq<u32> {
    match paths[x] {
        Some(w) => w@,
        None => Seq::empty(),
    }
}

/// The inputs `a` and `b` are the same up to place `i`, where `a` has the
/// lesser block.
pub open spec fn differ_at(a: Seq<u32>, b: Seq<u32>, i: int) -> bool {
    0 <= i < a.len() && i < b.len() && a.take(i) == b.take(i) && a[i] < b[i]
}

/// Of two inputs of the same length, `a` comes first: where they first
/// differ, `a` has the lesser block.
pub open spec fn lex_lt(a: Seq<u32>, b: Seq<u32>) -> bool {
    a.len() == b.len() && exists|i: int| #[trigger] differ_at(a, b, i)
}

/// The input `a` comes before `b`: it is shorter, or as long and first.
pub open spec fn shortlex_lt(a: Seq<u32>, b: Seq<u32>) -> bool {
    a.len() < b.len() || lex_lt(a, b)
}

/// The input `w` is the first of the inputs of its length that lead the
/// automaton from state 0 to state `x`.
pub open spec fn least_word(moves: Seq<(u32, u32, u32)>, x: u32, w: Seq<u32>) -> bool {
    forall|v: Seq<u32>| #[trigger] run_from(moves, 0, v) == Some(x) && v.len() == w.len() ==> v == w || lex_lt(w, v)
}

/// The input of every state that has one is the first of its length.
pub open spec fn all_least(moves: Seq<(u32, u32, u32)>, paths: Seq<Option<Vec<u32>>>) -> bool {
    forall|x: int| 0 <= x < paths.len() && (#[trigger] paths[x]).is_some() ==> least_word(moves, x as u32, word_at(paths, x))
}

/// The states of the queue come in the order of their inputs.
pub open spec fn queue_sorted(paths: Seq<Option<Vec<u32>>>, queue: Seq<u32>) -> bool {
    forall|k: int, m: int|
        0 <= k < m < queue.len() ==> shortlex_lt(
            word_at(paths, #[trigger] queue[k] as int),
            word_at(paths, #[trigger] queue[m] as int),
        )
}

/// Of two inputs not both come before the other.
pub proof fn lemma_lex_asymmetric(a: Seq<u32>, b: Seq<u32>)
    ensures
        !(lex_lt(a, b) && lex_lt(b, a)),
{
    if lex_lt(a, b) && lex_lt(b, a) {
        let i = choose|i: int| #[trigger] differ_at(a, b, i);
        let j = choose|j: int| #[trigger] differ_at(b, a, j);
        if i < j {
            assert(b.take(j)[i] == a.take(j)[i]);
        } else if j < i {
            assert(a.take(i)[j] == b.take(i)[j]);
        }
    }
}

/// What comes before an input comes before what that input comes before.
pub proof fn lemma_lex_transitive(a: Seq<u32>, b: Seq<u32>, c: Seq<u32>)
    requires
        lex_lt(a, b),
        lex_lt(b, c),
    ensures
        lex_lt(a, c),
{
    let i = choose|i: int| #[trigger] differ_at(a, b, i);
    let j = choose|j: int| #[trigger] differ_at(b, c, j);
    if i <= j {
        assert(a.take(i) =~= c.take(i)) by {
            assert forall|k: int| 0 <= k < i implies a.take(i)[k] == c.take(i)[k] by {
                assert(a.take(i)[k] == b.take(i)[k]);
                assert(b.take(j)[k] == c.take(j)[k]);
            }
        }
        if i < j {
            assert(b.take(j)[i] == c.take(j)[i]);
        }
        assert(differ_at(a, c, i));
    } else {
        assert(a.take(j) =~= c.take(j)) by {
            assert forall|k: int| 0 <= k < j implies a.take(j)[k] == c.take(j)[k] by {
                assert(a.take(i)[k] == b.take(i)[k]);
                assert(b.take(j)[k] == c.take(j)[k]);
            }
        }
        assert(a.take(i)[j] == b.take(i)[j]);
        assert(differ_at(a, c, j));
    }
}

/// Inputs with one block more come in the order of the inputs, and inputs
/// that are the same in the order of the blocks.
pub proof fn lemma_lex_push(a: Seq<u32>, c: u32, b: Seq<u32>, d: u32)
    requires
        lex_lt(a, b) || (a == b && c < d),
    ensures
        lex_lt(a.push(c), b.push(d)),
{
    if lex_lt(a, b) {
        let i = choose|i: int| #[trigger] differ_at(a, b, i);
        assert(a.push(c).take(i) =~= a.take(i));
        assert(b.push(d).take(i) =~= b.take(i));
        assert(differ_at(a.push(c), b.push(d), i));
    } else {
        let i = a.len() as int;
        assert(a.push(c).take(i) =~= b.push(d).take(i));
        assert(differ_at(a.push(c), b.push(d), i));
    }
}

/// The first input of its length that leads to a state is one input only.
pub proof fn lemma_least_unique(moves: Seq<(u32, u32, u32)>, x: u32, a: Seq<u32>, b: Seq<u32>)
    requires
        run_from(moves, 0, a) == Some(x),
        run_from(moves, 0, b) == Some(x),
        a.len() == b.len(),
        least_word(moves, x, a),
        least_word(moves, x, b),
    ensures
        a == b,
{
    lemma_lex_asymmetric(a, b);
}

/// The input of a state that is found from the state at the head of the
/// queue is the first of its length that leads there.
proof fn lemma_new_least(
    moves: Seq<(u32, u32, u32)>,
    paths: Seq<Option<Vec<u32>>>,
    queue: Seq<u32>,
    alphabet: Seq<u32>,
    head: int,
    j: int,
    t: u32,
)
    requires
        strictly_increasing(alphabet),
        moves_in(moves, paths.len() as int, alphabet),
        0 <= head < queue.len(),
        0 <= j < alphabet.len(),
        t < paths.len(),
        paths[t as int].is_none(),
        step_of(moves, queue[head], alphabet[j]) == Some(t),
        found_upto(moves, paths, path_len(paths, queue[head] as int)),
        all_shortest(moves, paths),
        all_least(moves, paths),
        queue_sorted(paths, queue),
        forall|k: int| 0 <= k < queue.len() ==> (#[trigger] queue[k]) < paths.len() && paths[queue[k] as int].is_some(),
        forall|q: u32| q < paths.len() && paths[q as int].is_some() ==> queue.contains(q),
        forall|x: int|
            0 <= x < paths.len() ==> match #[trigger] paths[x] {
                Some(w) => run_from(moves, 0, w@) == Some(x as u32),
                None => true,
            },
        forall|k: int, a: u32|
            0 <= k < head ==> match #[trigger] step_of(moves, queue[k], a) {
                Some(u) => u < paths.len() && paths[u as int].is_some(),
                None => true,
            },
        forall|k: int|
            0 <= k < j ==> match step_of(moves, queue[head], #[trigger] alphabet[k]) {
                Some(u) => u < paths.len() && paths[u as int].is_some(),
                None => true,
            },
    ensures
        least_word(moves, t, word_at(paths, queue[head] as int).push(alphabet[j])),
{
    let q = queue[head];
    let here = word_at(paths, q as int);
    let level = here.len() as int;
    let a = alphabet[j];
    let word = here.push(a);
    assert(paths[q as int].is_some());
    assert(level == path_len(paths, q as int));
    assert forall|v: Seq<u32>| #[trigger] run_from(moves, 0, v) == Some(t) && v.len() == word.len() implies v == word
        || lex_lt(word, v) by {
        let v0 = v.drop_last();
        let c = v.last();
        assert(v =~= v0.push(c));
        match run_from(moves, 0, v0) {
            Some(p) => {
                assert(step_of(moves, p, c) == Some(t));
                assert(v0.len() <= level);
                assert(p < paths.len() && paths[p as int].is_some());
                let there = word_at(paths, p as int);
                assert(run_from(moves, 0, there) == Some(p));
                assert(none_shorter(moves, p, path_len(paths, p as int)));
                assert(there.len() <= v0.len());
                if there.len() < level {
                    // A shorter way to `p` would be a way to `t` that is
                    // no longer than the way to the head of the queue.
                    let short = there.push(c);
                    assert(short.drop_last() =~= there);
                    assert(run_from(moves, 0, short) == Some(t));
                    assert(short.len() <= level);
                }
                assert(there.len() == level);
                assert(least_word(moves, p, there));
                assert(v0 == there || lex_lt(there, v0));
                assert(queue.contains(p));
                let k = choose|k: int| 0 <= k < queue.len() && queue[k] == p;
                if k < head {
                    assert(match step_of(moves, queue[k], c) {
                        Some(u) => u < paths.len() && paths[u as int].is_some(),
                        None => true,
                    });
                } else if k == head {
                    assert(moves.contains((q, c, t)));
                    let at = choose|at: int| 0 <= at < moves.len() && moves[at] == (q, c, t);
                    assert(alphabet.contains(moves[at].1));
                    let i = choose|i: int| 0 <= i < alphabet.len() && alphabet[i] == c;
                    if i < j {
                        assert(match step_of(moves, queue[head], alphabet[i]) {
                            Some(u) => u < paths.len() && paths[u as int].is_some(),
                            None => true,
                        });
                    }
                    if i > j {
                        assert(alphabet[j] < alphabet[i]);
                    }
                    if v0 == here {
                        if c != a {
                            lemma_lex_push(here, a, v0, c);
                        }
                    } else {
                        lemma_lex_push(here, a, v0, c);
                    }
                } else {
                    assert(shortlex_lt(word_at(paths, queue[head] as int), word_at(paths, queue[k] as int)));
                    assert(lex_lt(here, there));
                    if v0 != there {
                        lemma_lex_transitive(here, there, v0);
                    }
                    lemma_lex_push(here, a, v0, c);
                }
            },
            None => {},
        }
    }
}

/// How the states of the queue were found: each but the first from the
/// state at place `parent` of the queue, by the block at place `symbol` of
/// the alphabet. No state was found from a state behind the head of the
/// queue, nor from the head by a block from place `j` on.
pub open spec fn derived(
    paths: Seq<Option<Vec<u32>>>,
    queue: Seq<u32>,
    alphabet: Seq<u32>,
    parent: Seq<int>,
    symbol: Seq<int>,
    head: int,
    j: int,
) -> bool {
    &&& parent.len() == queue.len()
    &&& symbol.len() == queue.len()
    &&& forall|m: int|
        1 <= m < queue.len() ==> {
            &&& 0 <= #[trigger] parent[m] <= head
            &&& parent[m] < queue.len()
            &&& 0 <= symbol[m] < alphabet.len()
            &&& (parent[m] == head ==> symbol[m] < j)
            &&& word_at(paths, queue[m] as int) == word_at(paths, queue[parent[m]] as int).push(alphabet[symbol[m]])
        }
}

/// The queue stays in the order of the inputs when the state that was
/// found last is put at its end.
proof fn lemma_push_sorted(
    paths: Seq<Option<Vec<u32>>>,
    queue: Seq<u32>,
    alphabet: Seq<u32>,
    parent: Seq<int>,
    symbol: Seq<int>,
    head: int,
    j: int,
    t: u32,
    longer: Vec<u32>,
)
    requires
        strictly_increasing(alphabet),
        0 <= head < queue.len(),
        0 <= j < alphabet.len(),
        t < paths.len(),
        paths[t as int].is_none(),
        paths[0].is_some(),
        queue[0] == 0,
        word_at(paths, 0).len() == 0,
        longer@ == word_at(paths, queue[head] as int).push(alphabet[j]),
        forall|k: int| 0 <= k < queue.len() ==> (#[trigger] queue[k]) < paths.len() && paths[queue[k] as int].is_some(),
        queue_sorted(paths, queue),
        queue_below(paths, queue, path_len(paths, queue[head] as int) + 1),
        derived(paths, queue, alphabet, parent, symbol, head, j),
    ensures
        queue_sorted(paths.update(t as int, Some(longer)), queue.push(t)),
        derived(
            paths.update(t as int, Some(longer)),
            queue.push(t),
            alphabet,
            parent.push(head),
            symbol.push(j),
            head,
            j + 1,
        ),
{
    let after = paths.update(t as int, Some(longer));
    let more = queue.push(t);
    let here = word_at(paths, queue[head] as int);
    let level = here.len() as int;
    assert(paths[queue[head] as int].is_some());
    assert(level == path_len(paths, queue[head] as int));
    assert forall|k: int| 0 <= k < queue.len() implies word_at(after, #[trigger] more[k] as int) == word_at(
        paths,
        queue[k] as int,
    ) by {
        assert(paths[queue[k] as int].is_some());
    }
    assert forall|k: int, m: int| 0 <= k < m < more.len() implies shortlex_lt(
        word_at(after, #[trigger] more[k] as int),
        word_at(after, #[trigger] more[m] as int),
    ) by {
        assert(word_at(after, more[k] as int) == word_at(paths, queue[k] as int));
        if m < queue.len() {
            assert(word_at(after, more[m] as int) == word_at(paths, queue[m] as int));
            assert(shortlex_lt(word_at(paths, queue[k] as int), word_at(paths, queue[m] as int)));
        } else {
            let w = word_at(paths, queue[k] as int);
            assert(paths[queue[k] as int].is_some());
            assert(w.len() == path_len(paths, queue[k] as int));
            assert(w.len() <= level + 1);
            assert(word_at(after, more[m] as int) == longer@);
            if w.len() == level + 1 {
                assert(k >= 1);
                let pk = parent[k];
                let sk = symbol[k];
                let before = word_at(paths, queue[pk] as int);
                assert(w == before.push(alphabet[sk]));
                if pk < head {
                    assert(shortlex_lt(word_at(paths, queue[pk] as int), word_at(paths, queue[head] as int)));
                    lemma_lex_push(before, alphabet[sk], here, alphabet[j]);
                } else {
                    assert(alphabet[sk] < alphabet[j]);
                    lemma_lex_push(here, alphabet[sk], here, alphabet[j]);
                }
            }
        }
    }
    assert forall|m: int| 1 <= m < more.len() implies {
        &&& 0 <= #[trigger] parent.push(head)[m] <= head
        &&& parent.push(head)[m] < more.len()
        &&& 0 <= symbol.push(j)[m] < alphabet.len()
        &&& (parent.push(head)[m] == head ==> symbol.push(j)[m] < j + 1)
        &&& word_at(after, more[m] as int) == word_at(after, more[parent.push(head)[m]] as int).push(
            alphabet[symbol.push(j)[m]],
        )
    } by {
        if m < queue.len() {
            assert(parent.push(head)[m] == parent[m]);
            assert(symbol.push(j)[m] == symbol[m]);
            assert(word_at(after, more[m] as int) == word_at(paths, queue[m] as int));
            assert(word_at(after, more[parent[m]] as int) == word_at(paths, queue[parent[m]] as int));
        } else {
            assert(word_at(after, more[head] as int) == word_at(paths, queue[head] as int));
        }
    }
}

/// When the states whose inputs have length `n` at most have all made
/// their moves, every state to which an input of length `n + 1` leads has
/// its input.
proof fn lemma_next_level(
    moves: Seq<(u32, u32, u32)>,
    paths: Seq<Option<Vec<u32>>>,
    queue: Seq<u32>,
    head: int,
    n: int,
)
    requires
        n >= 0,
        0 <= head <= queue.len(),
        found_upto(moves, paths, n),
        all_shortest(moves, paths),
        queue_ordered(paths, queue),
        forall|k: int| 0 <= k < queue.len() ==> (#[trigger] queue[k]) < paths.len() && paths[queue[k] as int].is_some(),
        forall|q: u32| q < paths.len() && paths[q as int].is_some() ==> queue.contains(q),
        forall|k: int, a: u32|
            0 <= k < head ==> match #[trigger] step_of(moves, queue[k], a) {
                Some(t) => t < paths.len() && paths[t as int].is_some(),
                None => true,
            },
        head < queue.len() ==> path_len(paths, queue[head] as int) > n,
    ensures
        found_upto(moves, paths, n + 1),
{
    assert forall|w: Seq<u32>| w.len() <= n + 1 implies match #[trigger] run_from(moves, 0, w) {
        Some(x) => x < paths.len() && paths[x as int].is_some(),
        None => true,
    } by {
        if w.len() == n + 1 {
            let w0 = w.drop_last();
            let a = w.last();
            match run_from(moves, 0, w0) {
                Some(p) => {
                    assert(paths[p as int].is_some());
                    assert(none_shorter(moves, p, path_len(paths, p as int)));
                    assert(path_len(paths, p as int) <= w0.len());
                    assert(queue.contains(p));
                    let k = choose|k: int| 0 <= k < queue.len() && queue[k] == p;
                    if k >= head {
                        if k > head {
                            assert(path_len(paths, queue[head] as int) <= path_len(paths, queue[k] as int));
                        }
                    }
                    assert(k < head);
                    assert(match step_of(moves, queue[k], a) {
                        Some(t) => t < paths.len() && paths[t as int].is_some(),
                        None => true,
                    });
                },
                None => {},
            }
        }
    }
}

/// For every state that the automaton can be in, a shortest input that
/// leads it there from state 0. The states are searched breadth first.
pub fn witnesses(n: u32, alphabet: &Vec<u32>, moves: &Vec<(u32, u32, u32)>) -> (paths: Vec<Option<Vec<u32>>>)
    requires
        n >= 1,
        strictly_increasing(alphabet@),
        moves_sorted(moves@),
        moves_in(moves@, n as int, alphabet@),
    ensures
        paths@.len() == n,
        forall|q: int|
            0 <= q < n ==> match #[trigger] paths@[q] {
                Some(w) => run_from(moves@, 0, w@) == Some(q as u32) && none_shorter(moves@, q as u32, w@.len() as int)
                    && least_word(moves@, q as u32, w@),
                None => forall|w: Seq<u32>| run_from(moves@, 0, w) != Some(q as u32),
            },
{
    let mut paths: Vec<Option<Vec<u32>>> = Vec::new();
    let mut i: u32 = 0;
    while i < n
        invariant
            i <= n,
            paths@.len() == i,
            forall|q: int| 0 <= q < i ==> (#[trigger] paths@[q]).is_none(),
            missing(paths@) == i,
        decreases n - i,
    {
        let ghost before = paths@;
        paths.push(None);
        proof {
            assert(paths@.drop_last() =~= before);
        }
        i += 1;
    }
    let ghost blank = paths@;
    let first: Vec<u32> = Vec::new();
    let ghost first_word = first;
    paths.set(0, Some(first));
    let empty: Vec<u32> = Vec::new();
    proof {
        lemma_missing_update(blank, 0, first_word);
        assert(paths@ =~= blank.update(0, Some(first_word)));
        assert(first_word@ =~= Seq::<u32>::empty());
    }
    let mut queue: Vec<u32> = Vec::new();
    queue.push(0);
    let mut head: usize = 0;
    let ghost mut parent: Seq<int> = seq![0int];
    let ghost mut symbol: Seq<int> = seq![0int];
    proof {
        assert(queue@[0] == 0);
        assert(all_least(moves@, paths@)) by {
            assert forall|x: int| 0 <= x < paths@.len() && (#[trigger] paths@[x]).is_some() implies least_word(
                moves@,
                x as u32,
                word_at(paths@, x),
            ) by {
                if x != 0 {
                    assert(blank[x].is_none());
                }
                assert forall|v: Seq<u32>|
                    #[trigger] run_from(moves@, 0, v) == Some(x as u32) && v.len() == word_at(
                        paths@,
                        x,
                    ).len() implies v == word_at(paths@, x) || lex_lt(word_at(paths@, x), v) by {
                    assert(v =~= word_at(paths@, x));
                }
            }
        }
        assert forall|q: u32| q < n && paths@[q as int].is_some() implies queue@.contains(q) by {
            if q != 0 {
                assert(blank[q as int].is_none());
            }
        }
        assert(all_shortest(moves@, paths@)) by {
            assert forall|x: int| 0 <= x < paths@.len() && (#[trigger] paths@[x]).is_some() implies none_shorter(
                moves@,
                x as u32,
                path_len(paths@, x),
            ) by {
                if x != 0 {
                    assert(blank[x].is_none());
                }
            }
        }
        assert(found_upto(moves@, paths@, 0)) by {
            assert forall|w: Seq<u32>| w.len() <= 0 implies match #[trigger] run_from(moves@, 0, w) {
                Some(x) => x < paths@.len() && paths@[x as int].is_some(),
                None => true,
            } by {
                assert(w.len() == 0);
            }
        }
    }
    while head < queue.len()
        invariant
            n >= 1,
            paths@.len() == n,
            moves_sorted(moves@),
            moves_in(moves@, n as int, alphabet@),
            head <= queue@.len(),
            queue@.len() + missing(paths@) == n,
            paths@[0].is_some(),
            forall|q: int|
                0 <= q < n ==> match #[trigger] paths@[q] {
                    Some(w) => run_from(moves@, 0, w@) == Some(q as u32),
                    None => true,
                },
            forall|k: int| 0 <= k < queue@.len() ==> (#[trigger] queue@[k]) < n && paths@[queue@[k] as int].is_some(),
            forall|q: u32| q < n && paths@[q as int].is_some() ==> queue@.contains(q),
            forall|k: int, a: u32|
                0 <= k < head ==> match #[trigger] step_of(moves@, queue@[k], a) {
                    Some(t) => t < n && paths@[t as int].is_some(),
                    None => true,
                },
            queue_ordered(paths@, queue@),
            all_shortest(moves@, paths@),
            head < queue@.len() ==> queue_below(paths@, queue@, path_len(paths@, queue@[head as int] as int) + 1)
                && found_upto(moves@, paths@, path_len(paths@, queue@[head as int] as int)),
            strictly_increasing(alphabet@),
            queue@[0] == 0,
            word_at(paths@, 0).len() == 0,
            all_least(moves@, paths@),
            queue_sorted(paths@, queue@),
            derived(paths@, queue@, alphabet@, parent, symbol, head as int, 0),
        decreases n - head,
    {
        let q = queue[head];
        let here = copy_numbers(match &paths[q as usize] {
            Some(w) => w,
            None => &empty,
        });
        let ghost level = here@.len() as int;
        proof {
            lemma_missing_bound(paths@);
            assert(paths@[q as int].is_some());
            assert(run_from(moves@, 0, here@) == Some(q));
            assert(level == path_len(paths@, q as int));
        }
        let mut j: usize = 0;
        while j < alphabet.len()
            invariant
                n >= 1,
                q < n,
                q == queue@[head as int],
                j <= alphabet@.len(),
                paths@.len() == n,
                moves_sorted(moves@),
                moves_in(moves@, n as int, alphabet@),
                head < queue@.len(),
                queue@.len() + missing(paths@) == n,
                paths@[0].is_some(),
                run_from(moves@, 0, here@) == Some(q),
                level == here@.len(),
                level == path_len(paths@, q as int),
                forall|x: int|
                    0 <= x < n ==> match #[trigger] paths@[x] {
                        Some(w) => run_from(moves@, 0, w@) == Some(x as u32),
                        None => true,
                    },
                forall|k: int|
                    0 <= k < queue@.len() ==> (#[trigger] queue@[k]) < n && paths@[queue@[k] as int].is_some(),
                forall|x: u32| x < n && paths@[x as int].is_some() ==> queue@.contains(x),
                forall|k: int, a: u32|
                    0 <= k < head ==> match #[trigger] step_of(moves@, queue@[k], a) {
                        Some(t) => t < n && paths@[t as int].is_some(),
                        None => true,
                    },
                forall|k: int|
                    0 <= k < j ==> match step_of(moves@, q, #[trigger] alphabet@[k]) {
                        Some(t) => t < n && paths@[t as int].is_some(),
                        None => true,
                    },
                queue_ordered(paths@, queue@),
                all_shortest(moves@, paths@),
                queue_below(paths@, queue@, level + 1),
                found_upto(moves@, paths@, level),
                strictly_increasing(alphabet@),
                queue@[0] == 0,
                word_at(paths@, 0).len() == 0,
                here@ == word_at(paths@, q as int),
                all_least(moves@, paths@),
                queue_sorted(paths@, queue@),
                derived(paths@, queue@, alphabet@, parent, symbol, head as int, j as int),
            decreases alphabet@.len() - j,
        {
            let a = alphabet[j];
            match find_move(moves, q, a) {
                Some(t) => {
                    proof {
                        assert(moves@.contains((q, a, t)));
                        let i = choose|i: int| 0 <= i < moves@.len() && moves@[i] == (q, a, t);
                        assert(moves@[i].2 < n);
                    }
                    if paths[t as usize].is_none() {
                        let ghost paths_before = paths@;
                        let ghost queue_before = queue@;
                        let mut longer = copy_numbers(&here);
                        longer.push(a);
                        proof {
                            assert(longer@.drop_last() =~= here@);
                            assert(longer@.last() == a);
                            assert(run_from(moves@, 0, longer@) == Some(t));
                            lemma_missing_update(paths_before, t as int, longer);
                            assert(longer@ =~= here@.push(a));
                            crate::rlex::automata::language::lemma_step_of_member(moves@, q, a, t);
                            lemma_new_least(moves@, paths_before, queue_before, alphabet@, head as int, j as int, t);
                            lemma_push_sorted(
                                paths_before,
                                queue_before,
                                alphabet@,
                                parent,
                                symbol,
                                head as int,
                                j as int,
                                t,
                                longer,
                            );
                            parent = parent.push(head as int);
                            symbol = symbol.push(j as int);
                        }
                        paths.set(t as usize, Some(longer));
                        queue.push(t);
                        proof {
                            assert(paths@ =~= paths_before.update(t as int, Some(longer)));
                            assert(all_least(moves@, paths@)) by {
                                assert forall|x: int|
                                    0 <= x < paths@.len() && (#[trigger] paths@[x]).is_some() implies least_word(
                                    moves@,
                                    x as u32,
                                    word_at(paths@, x),
                                ) by {
                                    if x != t {
                                        assert(paths_before[x].is_some());
                                        assert(least_word(moves@, x as u32, word_at(paths_before, x)));
                                    }
                                }
                            }
                            assert forall|x: int| 0 <= x < n && x != t implies path_len(paths@, x) == path_len(
                                paths_before,
                                x,
                            ) by {
                            }
                            assert(path_len(paths@, t as int) == level + 1);
                            assert forall|k: int| 0 <= k < queue@.len() implies (#[trigger] queue@[k]) < n
                                && paths@[queue@[k] as int].is_some() by {
                                if k < queue_before.len() {
                                    assert(queue@[k] == queue_before[k]);
                                }
                            }
                            assert forall|x: u32| x < n && paths@[x as int].is_some() implies queue@.contains(
                                x,
                            ) by {
                                lemma_contains_push(queue_before, t, x);
                            }
                            assert forall|k: int, c: u32| 0 <= k < head implies match #[trigger] step_of(
                                moves@,
                                queue@[k],
                                c,
                            ) {
                                Some(u) => u < n && paths@[u as int].is_some(),
                                None => true,
                            } by {
                                assert(queue@[k] == queue_before[k]);
                                assert(match step_of(moves@, queue_before[k], c) {
                                    Some(u) => u < n && paths_before[u as int].is_some(),
                                    None => true,
                                });
                            }
                            assert forall|k: int| 0 <= k < j + 1 implies match step_of(
                                moves@,
                                q,
                                #[trigger] alphabet@[k],
                            ) {
                                Some(u) => u < n && paths@[u as int].is_some(),
                                None => true,
                            } by {
                                if k < j {
                                    assert(match step_of(moves@, q, alphabet@[k]) {
                                        Some(u) => u < n && paths_before[u as int].is_some(),
                                        None => true,
                                    });
                                }
                            }
                            assert(queue_below(paths@, queue@, level + 1)) by {
                                assert forall|k: int| 0 <= k < queue@.len() implies path_len(
                                    paths@,
                                    #[trigger] queue@[k] as int,
                                ) <= level + 1 by {
                                    if k < queue_before.len() {
                                        assert(queue@[k] == queue_before[k]);
                                        assert(paths_before[queue_before[k] as int].is_some());
                                        assert(path_len(paths_before, queue_before[k] as int) <= level + 1);
                                    }
                                }
                            }
                            assert(queue_ordered(paths@, queue@)) by {
                                assert forall|k: int, m: int| 0 <= k < m < queue@.len() implies path_len(
                                    paths@,
                                    queue@[k] as int,
                                ) <= path_len(paths@, queue@[m] as int) by {
                                    assert(queue@[k] == queue_before[k]);
                                    assert(paths_before[queue_before[k] as int].is_some());
                                    if m < queue_before.len() {
                                        assert(queue@[m] == queue_before[m]);
                                        assert(paths_before[queue_before[m] as int].is_some());
                                        assert(path_len(paths_before, queue_before[k] as int) <= path_len(
                                            paths_before,
                                            queue_before[m] as int,
                                        ));
                                    } else {
                                        assert(path_len(paths_before, queue_before[k] as int) <= level + 1);
                                    }
                                }
                            }
                            assert(all_shortest(moves@, paths@)) by {
                                assert forall|x: int|
                                    0 <= x < paths@.len() && (#[trigger] paths@[x]).is_some() implies none_shorter(
                                    moves@,
                                    x as u32,
                                    path_len(paths@, x),
                                ) by {
                                    if x == t {
                                        assert forall|w: Seq<u32>|
                                            #[trigger] run_from(moves@, 0, w) == Some(t) implies level + 1
                                            <= w.len() by {
                                            if w.len() <= level {
                                                assert(paths_before[t as int].is_some());
                                            }
                                        }
                                    } else {
                                        assert(paths_before[x].is_some());
                                        assert(none_shorter(moves@, x as u32, path_len(paths_before, x)));
                                    }
                                }
                            }
                            assert(found_upto(moves@, paths@, level)) by {
                                assert forall|w: Seq<u32>| w.len() <= level implies match #[trigger] run_from(
                                    moves@,
                                    0,
                                    w,
                                ) {
                                    Some(x) => x < paths@.len() && paths@[x as int].is_some(),
                                    None => true,
                                } by {
                                    match run_from(moves@, 0, w) {
                                        Some(x) => {
                                            assert(paths_before[x as int].is_some());
                                        },
                                        None => {},
                                    }
                                }
                            }
                        }
                    }
                },
                None => {},
            }
            j += 1;
        }
        proof {
            lemma_missing_bound(paths@);
            assert forall|k: int, a: u32| 0 <= k < head + 1 implies match #[trigger] step_of(moves@, queue@[k], a) {
                Some(t) => t < n && paths@[t as int].is_some(),
                None => true,
            } by {
                if k == head {
                    if alphabet@.contains(a) {
                        let i = choose|i: int| 0 <= i < alphabet@.len() && alphabet@[i] == a;
                        assert(match step_of(moves@, q, alphabet@[i]) {
                            Some(t) => t < n && paths@[t as int].is_some(),
                            None => true,
                        });
                    } else {
                        assert forall|u: u32| !moves@.contains((q, a, u)) by {
                            if moves@.contains((q, a, u)) {
                                let i = choose|i: int| 0 <= i < moves@.len() && moves@[i] == (q, a, u);
                                assert(alphabet@.contains(moves@[i].1));
                            }
                        }
                    }
                }
            }
            if head + 1 < queue@.len() {
                let next = path_len(paths@, queue@[head + 1] as int);
                assert(path_len(paths@, queue@[head as int] as int) <= next);
                assert(next <= level + 1);
                if next == level + 1 {
                    lemma_next_level(moves@, paths@, queue@, head + 1, level);
                } else {
                    assert(next == level);
                }
                assert(queue_below(paths@, queue@, next + 1)) by {
                    assert forall|k: int| 0 <= k < queue@.len() implies path_len(
                        paths@,
                        #[trigger] queue@[k] as int,
                    ) <= next + 1 by {
                        assert(path_len(paths@, queue@[k] as int) <= level + 1);
                    }
                }
                assert(found_upto(moves@, paths@, next)) by {
                    if next == level {
                    }
                }
            }
        }
        head += 1;
    }
    proof {
        assert forall|q: int| 0 <= q < n implies match #[trigger] paths@[q] {
            Some(w) => run_from(moves@, 0, w@) == Some(q as u32) && none_shorter(moves@, q as u32, w@.len() as int),
            None => forall|w: Seq<u32>| run_from(moves@, 0, w) != Some(q as u32),
        } by {
            if paths@[q].is_none() {
                assert forall|w: Seq<u32>| run_from(moves@, 0, w) != Some(q as u32) by {
                    assert forall|x: u32, a: u32|
                        x < paths@.len() && paths@[x as int].is_some() implies match #[trigger] step_of(
                        moves@,
                        x,
                        a,
                    ) {
                        Some(t) => paths@[t as int].is_some(),
                        None => true,
                    } by {
                        assert(queue@.contains(x));
                        let k = choose|k: int| 0 <= k < queue@.len() && queue@[k] == x;
                        assert(match step_of(moves@, queue@[k], a) {
                            Some(t) => t < n && paths@[t as int].is_some(),
                            None => true,
                        });
                    }
                    lemma_found_all(moves@, paths@, w);
                }
            } else {
                assert(none_shorter(moves@, q as u32, path_len(paths@, q)));
                assert(least_word(moves@, q as u32, word_at(paths@, q)));
            }
        }
    }
    paths
}

/// What is owed for the rules whose automata lie among `edges`, with the
/// common start `start` and the accepting state `accepts[i]` of rule `i`:
/// an automaton that gives every input the one rule that accepts it; or the
/// conflicts, where some input is accepted by two rules; or word that the
/// automaton would be too large.
pub open spec fn outcome(edges: Seq<Edge>, start: u32, accepts: Seq<u32>, r: Result<TaggedDFA, GenError>) -> bool {
    &&& too_many_subsets(edges, start) == (r matches Err(GenError::TooManyStates))
    &&& match r {
        Ok(d) => d.wf() && (d.is_live() ==> d.is_minimal()) && forall|w: Seq<u32>, i: u32|
            d.tag_after(w) == Some(i) <==> #[trigger] rule_accepts(edges, start, accepts, i, w),
        Err(GenError::Conflicts(cs)) => cs@.len() > 0 && conflicts_complete(edges, start, accepts, cs@) && forall|
            k: int,
        | 0 <= k < cs@.len() ==> conflict_ok(edges, start, accepts, #[trigger] cs@[k]),
        Err(GenError::TooManyStates) => true,
    }
}

/// The label of a state is in order: it names the one rule whose accepting
/// state is in the subset of the state, or none if there is none.
pub open spec fn label_ok(subset: Seq<u32>, accepts: Seq<u32>, label: Option<u32>) -> bool {
    forall|i: u32| label == Some(i) <==> #[trigger] has_rule(subset, accepts, i)
}

/// The accepting state of rule `i` is in the subset.
pub open spec fn has_rule(subset: Seq<u32>, accepts: Seq<u32>, i: u32) -> bool {
    i < accepts.len() && subset.contains(accepts[i as int])
}

/// Where every state carries the rule whose accepting state is in its
/// subset, the automaton gives every input the rule that accepts it.
proof fn lemma_labels_track(
    edges: Seq<Edge>,
    start: u32,
    accepts: Seq<u32>,
    subsets: Seq<Vec<u32>>,
    moves: Seq<(u32, u32, u32)>,
    labels: Seq<Option<u32>>,
    w: Seq<u32>,
    i: u32,
)
    requires
        labels.len() == subsets.len(),
        forall|q: int| 0 <= q < subsets.len() ==> label_ok(subsets[q]@, accepts, #[trigger] labels[q]),
        match run_from(moves, 0, w) {
            Some(q) => q < subsets.len() && subset_is(edges, start, subsets[q as int]@, w),
            None => !reaches_some(edges, start, w),
        },
    ensures
        label_after(moves, labels, w) == Some(i) <==> rule_accepts(edges, start, accepts, i, w),
{
    match run_from(moves, 0, w) {
        Some(q) => {
            assert(label_ok(subsets[q as int]@, accepts, labels[q as int]));
            assert(labels[q as int] == Some(i) <==> has_rule(subsets[q as int]@, accepts, i));
            if i < accepts.len() {
                assert(subsets[q as int]@.contains(accepts[i as int]) <==> nfa_reaches(
                    edges,
                    start,
                    w,
                    accepts[i as int],
                ));
            }
        },
        None => {
            if rule_accepts(edges, start, accepts, i, w) {
                assert(nfa_reaches(edges, start, w, accepts[i as int]));
                assert(reaches_some(edges, start, w));
            }
        },
    }
}

/// Tags the states of the deterministic automaton `d` with the rules, or
/// collects the conflicts.
fn tag_states(d: &Determined, accepts: &Vec<u32>, edges: Ghost<Seq<Edge>>, m: Ghost<NFA>) -> (r: (
    Vec<Option<u32>>,
    Vec<Conflict>,
))
    requires
        exists|alphabet: Seq<u32>| #[trigger] determined(edges@, alphabet, m@, *d),
        accepts@.len() <= u32::MAX,
    ensures
        forall|k: int| 0 <= k < r.1@.len() ==> conflict_ok(edges@, m@.start.0, accepts@, #[trigger] r.1@[k]),
        conflicts_complete(edges@, m@.start.0, accepts@, r.1@),
        r.1@.len() == 0 ==> r.0@.len() == d.subsets@.len() && forall|q: int|
            0 <= q < d.subsets@.len() ==> label_ok(d.subsets@[q]@, accepts@, #[trigger] r.0@[q]),
{
    let ghost alphabet = choose|alphabet: Seq<u32>| #[trigger] determined(edges@, alphabet, m@, *d);
    let ghost start = m@.start.0;
    let n = d.dfa.state_count();
    proof {
        assert(moves_in(d.dfa.moves(), n as int, d.dfa.alphabet()));
    }
    let paths = witnesses(n, d.dfa.input_set(), d.dfa.transitions());
    let mut labels: Vec<Option<u32>> = Vec::new();
    let mut conflicts: Vec<Conflict> = Vec::new();
    let mut q: usize = 0;
    let ghost mut places: Seq<int> = Seq::empty();
    while q < d.subsets.len()
        invariant
            q <= d.subsets@.len(),
            places.len() == conflicts@.len(),
            forall|k: int|
                0 <= k < places.len() ==> 0 <= #[trigger] places[k] < q && run_from(
                    d.dfa.moves(),
                    0,
                    conflicts@[k].witness@,
                ) == Some(places[k] as u32),
            forall|k: int, l: int| 0 <= k < l < places.len() ==> places[k] < places[l],
            forall|x: int, i: u32, j: u32|
                0 <= x < q && i != j && #[trigger] has_rule(d.subsets@[x]@, accepts@, i) && #[trigger] has_rule(
                    d.subsets@[x]@,
                    accepts@,
                    j,
                ) ==> places.contains(x),
            n == d.subsets@.len(),
            determined(edges@, alphabet, m@, *d),
            start == m@.start.0,
            accepts@.len() <= u32::MAX,
            paths@.len() == n,
            forall|x: int|
                0 <= x < n ==> match #[trigger] paths@[x] {
                    Some(w) => run_from(d.dfa.moves(), 0, w@) == Some(x as u32) && none_shorter(
                        d.dfa.moves(),
                        x as u32,
                        w@.len() as int,
                    ) && least_word(d.dfa.moves(), x as u32, w@),
                    None => forall|w: Seq<u32>| run_from(d.dfa.moves(), 0, w) != Some(x as u32),
                },
            forall|k: int|
                0 <= k < conflicts@.len() ==> conflict_ok(edges@, start, accepts@, #[trigger] conflicts@[k]),
            labels@.len() == q,
            conflicts@.len() == 0 ==> forall|x: int|
                0 <= x < q ==> label_ok(d.subsets@[x]@, accepts@, #[trigger] labels@[x]),
        decreases d.subsets@.len() - q,
    {
        let ghost labels_before = labels@;
        let ghost conflicts_before = conflicts@;
        let ghost places_before = places;
        proof {
            assert(strictly_increasing(d.subsets@[q as int]@));
        }
        let tags = tags_of(&d.subsets[q], accepts);
        proof {
            if tags@.len() <= 1 {
                assert forall|i: u32, j: u32|
                    i != j && #[trigger] has_rule(d.subsets@[q as int]@, accepts@, i) && #[trigger] has_rule(
                        d.subsets@[q as int]@,
                        accepts@,
                        j,
                    ) implies false by {
                    assert(tags@.contains(i));
                    assert(tags@.contains(j));
                    let a = choose|a: int| 0 <= a < tags@.len() && tags@[a] == i;
                    let b = choose|b: int| 0 <= b < tags@.len() && tags@[b] == j;
                }
            }
        }
        if tags.len() == 0 {
            labels.push(None);
            proof {
                assert(labels@[q as int] == None::<u32>);
                assert forall|i: u32|
                    labels@[q as int] == Some(i) <==> #[trigger] has_rule(
                        d.subsets@[q as int]@,
                        accepts@,
                        i,
                    ) by {
                    if has_rule(d.subsets@[q as int]@, accepts@, i) {
                        assert(tags@.contains(i));
                    }
                }
                assert(label_ok(d.subsets@[q as int]@, accepts@, labels@[q as int]));
            }
        } else if tags.len() == 1 {
            labels.push(Some(tags[0]));
            proof {
                assert(labels@[q as int] == Some(tags@[0]));
                assert forall|i: u32|
                    labels@[q as int] == Some(i) <==> #[trigger] has_rule(
                        d.subsets@[q as int]@,
                        accepts@,
                        i,
                    ) by {
                    assert(tags@.contains(tags@[0]));
                    if has_rule(d.subsets@[q as int]@, accepts@, i) {
                        assert(tags@.contains(i));
                        let k = choose|k: int| 0 <= k < tags@.len() && tags@[k] == i;
                    }
                }
                assert(label_ok(d.subsets@[q as int]@, accepts@, labels@[q as int]));
            }
        } else {
            labels.push(None);
            let witness = match &paths[q] {
                Some(w) => copy_numbers(w),
                None => {
                    proof {
                        let w = choose|w: Seq<u32>| run_from(d.dfa.moves(), 0, w) == Some(q as u32);
                        assert(run_from(d.dfa.moves(), 0, w) != Some(q as u32));
                    }
                    Vec::new()
                },
            };
            let c = Conflict { rules: tags, witness };
            proof {
                assert(run_from(d.dfa.moves(), 0, c.witness@) == Some(q as u32));
                assert(subset_is(edges@, start, d.subsets@[q as int]@, c.witness@));
                assert(none_shorter(d.dfa.moves(), q as u32, c.witness@.len() as int));
                assert(least_word(d.dfa.moves(), q as u32, c.witness@));
                assert forall|w: Seq<u32>| #[trigger] same_reach(edges@, start, w, c.witness@) implies c.witness@.len()
                    <= w.len() && (w.len() == c.witness@.len() ==> w == c.witness@ || lex_lt(c.witness@, w)) by {
                    lemma_same_state(edges@, alphabet, m@, *d, c.witness@, w, q as u32);
                    assert(run_from(d.dfa.moves(), 0, w) == Some(q as u32)) by {
                        assert forall|t: u32| nfa_reaches(edges@, start, c.witness@, t) <==> nfa_reaches(
                            edges@,
                            start,
                            w,
                            t,
                        ) by {
                            assert(nfa_reaches(edges@, start, w, t) <==> nfa_reaches(edges@, start, c.witness@, t));
                        }
                        assert(same_reach(edges@, start, c.witness@, w));
                    }
                }
                assert forall|i: u32| c.rules@.contains(i) <==> rule_accepts(
                    edges@,
                    start,
                    accepts@,
                    i,
                    c.witness@,
                ) by {
                    if i < accepts@.len() {
                        assert(d.subsets@[q as int]@.contains(accepts@[i as int]) <==> nfa_reaches(
                            edges@,
                            start,
                            c.witness@,
                            accepts@[i as int],
                        ));
                    }
                }
            }
            conflicts.push(c);
            proof {
                places = places.push(q as int);
                assert(places[places.len() - 1] == q);
                assert forall|k: int| 0 <= k < places.len() implies 0 <= #[trigger] places[k] < q + 1 && run_from(
                    d.dfa.moves(),
                    0,
                    conflicts@[k].witness@,
                ) == Some(places[k] as u32) by {
                    if k < places_before.len() {
                        assert(places[k] == places_before[k]);
                        assert(conflicts@[k] == conflicts_before[k]);
                    }
                }
                assert forall|k: int| 0 <= k < conflicts@.len() implies conflict_ok(
                    edges@,
                    start,
                    accepts@,
                    #[trigger] conflicts@[k],
                ) by {
                    if k < conflicts_before.len() {
                        assert(conflicts@[k] == conflicts_before[k]);
                    }
                }
            }
        }
        proof {
            assert forall|x: int, i: u32, j: u32|
                0 <= x < q + 1 && i != j && #[trigger] has_rule(d.subsets@[x]@, accepts@, i) && #[trigger] has_rule(
                    d.subsets@[x]@,
                    accepts@,
                    j,
                ) implies places.contains(x) by {
                if x < q {
                    assert(places_before.contains(x));
                    let k = choose|k: int| 0 <= k < places_before.len() && places_before[k] == x;
                    assert(places[k] == x);
                } else {
                    assert(places[places.len() - 1] == q);
                }
            }
            if conflicts@.len() == 0 {
                assert forall|x: int| 0 <= x < q + 1 implies label_ok(
                    d.subsets@[x]@,
                    accepts@,
                    #[trigger] labels@[x],
                ) by {
                    if x < q {
                        assert(labels@[x] == labels_before[x]);
                    }
                }
            }
        }
        q += 1;
    }
    proof {
        assert forall|w: Seq<u32>, i: u32, j: u32|
            i != j && #[trigger] rule_accepts(edges@, start, accepts@, i, w) && #[trigger] rule_accepts(
                edges@,
                start,
                accepts@,
                j,
                w,
            ) implies shown(edges@, start, conflicts@, w) by {
            assert(nfa_reaches(edges@, start, w, accepts@[i as int]));
            assert(reaches_some(edges@, start, w));
            let x = run_from(d.dfa.moves(), 0, w)->Some_0;
            assert(run_from(d.dfa.moves(), 0, w) == Some(x));
            assert(subset_is(edges@, start, d.subsets@[x as int]@, w));
            assert(has_rule(d.subsets@[x as int]@, accepts@, i));
            assert(has_rule(d.subsets@[x as int]@, accepts@, j));
            assert(places.contains(x as int));
            let k = choose|k: int| 0 <= k < places.len() && places[k] == x as int;
            lemma_same_state(edges@, alphabet, m@, *d, w, conflicts@[k].witness@, x);
            assert(same_reach(edges@, start, w, conflicts@[k].witness@));
        }
        assert forall|k: int, l: int| 0 <= k < l < conflicts@.len() implies !same_reach(
            edges@,
            start,
            (#[trigger] conflicts@[k]).witness@,
            (#[trigger] conflicts@[l]).witness@,
        ) by {
            assert(places[k] < places[l]);
            lemma_same_state(
                edges@,
                alphabet,
                m@,
                *d,
                conflicts@[k].witness@,
                conflicts@[l].witness@,
                places[k] as u32,
            );
        }
    }
    (labels, conflicts)
}

/// The tagged automaton for rules whose automata were built with `builder`:
/// `start` is the common start, and `accepts[i]` the accepting state of
/// rule `i`.
pub fn tag_automaton(builder: Builder, start: NFAState, accepts: &Vec<u32>) -> (r: Result<TaggedDFA, GenError>)
    requires
        builder.wf(),
        start.0 < builder.state_count(),
        accepts@.len() <= u32::MAX,
    ensures
        outcome(builder.edges(), start.0, accepts@, r),
{
    let ghost edges = builder.edges();
    let m = NFA { start, accepted: start };
    let d = match builder.finish_with_subsets(m) {
        Some(d) => d,
        None => {
            return Err(GenError::TooManyStates);
        },
    };
    let ghost alphabet = choose|alphabet: Seq<u32>| #[trigger] determined(edges, alphabet, m, d);
    let (labels, conflicts) = tag_states(&d, accepts, Ghost(edges), Ghost(m));
    if conflicts.len() > 0 {
        return Err(GenError::Conflicts(conflicts));
    }
    let n = d.dfa.state_count();
    proof {
        assert(moves_in(d.dfa.moves(), n as int, d.dfa.alphabet()));
    }
    let minimal = minimize_labelled(n, d.dfa.input_set(), d.dfa.transitions(), &labels);
    let ghost moves = d.dfa.moves();
    let ghost subsets = d.subsets@;
    proof {
        assert forall|w: Seq<u32>|
            match #[trigger] run_from(moves, 0, w) {
                Some(q) => q < subsets.len() && subset_is(edges, start.0, subsets[q as int]@, w),
                None => !reaches_some(edges, start.0, w),
            } by {
            assert(determined(edges, alphabet, m, d));
        }
    }
    let Determined { dfa, subsets: _ } = d;
    let (_, input_set, _, _) = dfa.into_parts();
    let r = TaggedDFA { state_count: minimal.count, input_set, transitions: minimal.moves, tags: minimal.labels };
    proof {
        assert forall|w: Seq<u32>, i: u32|
            r.tag_after(w) == Some(i) <==> #[trigger] rule_accepts(edges, start.0, accepts@, i, w) by {
            assert(label_after(r.moves(), r.labels(), w) == label_after(moves, labels@, w));
            assert(match #[trigger] run_from(moves, 0, w) {
                Some(q) => q < subsets.len() && subset_is(edges, start.0, subsets[q as int]@, w),
                None => !reaches_some(edges, start.0, w),
            });
            lemma_labels_track(edges, start.0, accepts@, subsets, moves, labels@, w, i);
        }
    }
    Ok(r)
}

/// The expressions of the rules, in order.
pub open spec fn regexes<Tag>(rs: Seq<TaggedRegEx<Vec<u32>, Tag>>) -> Seq<RegEx<Vec<u32>>> {
    Seq::new(rs.len(), |k: int| rs[k].regex)
}

/// The number of states that the automata of the first `n` rules take.
pub open spec fn rules_needed<Tag>(rs: Seq<TaggedRegEx<Vec<u32>, Tag>>, n: nat) -> nat {
    sum_needed(regexes(rs), n)
}

/// Rule `i` matches the string of blocks `w`.
pub open spec fn rule_matches<Tag>(rs: Seq<TaggedRegEx<Vec<u32>, Tag>>, i: u32, w: Seq<u32>) -> bool {
    i < rs.len() && regex_matches(rs[i as int].regex, w)
}

/// What is known of the automata that are built for the rules: each rule
/// has its accepting state, which is reached from the common start on
/// exactly the strings that the rule matches.
pub open spec fn rules_built<Tag>(
    rs: Seq<TaggedRegEx<Vec<u32>, Tag>>,
    edges: Seq<Edge>,
    start: u32,
    accepts: Seq<u32>,
) -> bool {
    &&& accepts.len() == rs.len()
    &&& forall|i: u32, w: Seq<u32>| #[trigger] rule_accepts(edges, start, accepts, i, w) <==> rule_matches(rs, i, w)
}

/// The transitions of the automata of the rules, built one after the other
/// from state 0 on, and of their alternation.
pub open spec fn rules_arcs<Tag>(rs: Seq<TaggedRegEx<Vec<u32>, Tag>>) -> Seq<Edge> {
    parts_arcs(regexes(rs), 0, rs.len()) + alt_links(regexes(rs), 0)
}

/// The start of the alternation of the rules: the first state after those
/// of the rules.
pub open spec fn rules_start<Tag>(rs: Seq<TaggedRegEx<Vec<u32>, Tag>>) -> u32 {
    rules_needed(rs, rs.len()) as u32
}

/// The accepting state of each rule.
pub open spec fn rules_ends<Tag>(rs: Seq<TaggedRegEx<Vec<u32>, Tag>>) -> Seq<u32> {
    Seq::new(rs.len(), |i: int| part_ends(regexes(rs), 0, i).accepted.0)
}

/// What is owed for an automaton is owed for the same transitions in
/// another order.
pub proof fn lemma_outcome_same_arcs(
    a: Seq<Edge>,
    b: Seq<Edge>,
    start: u32,
    accepts: Seq<u32>,
    r: Result<TaggedDFA, GenError>,
)
    requires
        same_arcs(a, b),
        outcome(a, start, accepts, r),
    ensures
        outcome(b, start, accepts, r),
{
    lemma_same_arcs_reach(a, b);
    assert forall|u: Seq<u32>, v: Seq<u32>| same_reach(a, start, u, v) == #[trigger] same_reach(b, start, u, v) by {}
    assert forall|w: Seq<u32>| reaches_some(a, start, w) == #[trigger] reaches_some(b, start, w) by {
        if reaches_some(a, start, w) {
            let t = choose|t: u32| nfa_reaches(a, start, w, t);
            assert(nfa_reaches(b, start, w, t));
        }
        if reaches_some(b, start, w) {
            let t = choose|t: u32| nfa_reaches(b, start, w, t);
            assert(nfa_reaches(a, start, w, t));
        }
    }
    assert forall|words: Seq<Seq<u32>>| distinct_words(a, start, words) == #[trigger] distinct_words(
        b,
        start,
        words,
    ) by {
        assert forall|i: int| 0 <= i < words.len() implies reaches_some(a, start, words[i]) == reaches_some(
            b,
            start,
            #[trigger] words[i],
        ) by {}
        assert forall|i: int, j: int| 0 <= i < j < words.len() implies same_reach(a, start, words[i], words[j])
            == same_reach(b, start, #[trigger] words[i], #[trigger] words[j]) by {}
    }
    if too_many_subsets(a, start) {
        let words = choose|words: Seq<Seq<u32>>| #[trigger]
            distinct_words(a, start, words) && words.len() > u32::MAX;
        assert(distinct_words(b, start, words));
    }
    if too_many_subsets(b, start) {
        let words = choose|words: Seq<Seq<u32>>| #[trigger]
            distinct_words(b, start, words) && words.len() > u32::MAX;
        assert(distinct_words(a, start, words));
    }
    assert forall|i: u32, w: Seq<u32>|
        rule_accepts(a, start, accepts, i, w) == #[trigger] rule_accepts(b, start, accepts, i, w) by {}
    match r {
        Ok(d) => {},
        Err(GenError::Conflicts(cs)) => {
            assert forall|w: Seq<u32>| shown(a, start, cs@, w) == #[trigger] shown(b, start, cs@, w) by {
                if shown(a, start, cs@, w) {
                    let k = choose|k: int| 0 <= k < cs@.len() && same_reach(a, start, w, (#[trigger] cs@[k]).witness@);
                    assert(same_reach(b, start, w, cs@[k].witness@));
                }
                if shown(b, start, cs@, w) {
                    let k = choose|k: int| 0 <= k < cs@.len() && same_reach(b, start, w, (#[trigger] cs@[k]).witness@);
                    assert(same_reach(a, start, w, cs@[k].witness@));
                }
            }
            assert(conflicts_complete(b, start, accepts, cs@)) by {
                assert forall|w: Seq<u32>, i: u32, j: u32|
                    i != j && #[trigger] rule_accepts(b, start, accepts, i, w) && #[trigger] rule_accepts(
                        b,
                        start,
                        accepts,
                        j,
                        w,
                    ) implies shown(b, start, cs@, w) by {
                    assert(rule_accepts(a, start, accepts, i, w) && rule_accepts(a, start, accepts, j, w));
                    assert(shown(a, start, cs@, w));
                }
                assert forall|k: int, l: int| 0 <= k < l < cs@.len() implies !same_reach(
                    b,
                    start,
                    (#[trigger] cs@[k]).witness@,
                    (#[trigger] cs@[l]).witness@,
                ) by {
                    assert(!same_reach(a, start, cs@[k].witness@, cs@[l].witness@));
                }
            }
            assert forall|k: int| 0 <= k < cs@.len() implies conflict_ok(b, start, accepts, #[trigger] cs@[k]) by {
                let c = cs@[k];
                assert(conflict_ok(a, start, accepts, c));
                assert forall|i: u32| c.rules@.contains(i) <==> rule_accepts(b, start, accepts, i, c.witness@) by {
                    assert(rule_accepts(a, start, accepts, i, c.witness@) == rule_accepts(
                        b,
                        start,
                        accepts,
                        i,
                        c.witness@,
                    ));
                }
                assert forall|w: Seq<u32>| #[trigger] same_reach(b, start, w, c.witness@) implies c.witness@.len()
                    <= w.len() && (w.len() == c.witness@.len() ==> w == c.witness@ || lex_lt(c.witness@, w)) by {
                    assert(same_reach(a, start, w, c.witness@));
                }
            }
        },
        Err(GenError::TooManyStates) => {},
    }
}

/// A conflict among the rules: it names, in increasing order, exactly the
/// rules that match its witness, and they are two at least.
pub open spec fn conflict_among<Tag>(rs: Seq<TaggedRegEx<Vec<u32>, Tag>>, c: Conflict) -> bool {
    &&& c.rules@.len() >= 2
    &&& strictly_increasing(c.rules@)
    &&& forall|i: u32| c.rules@.contains(i) <==> rule_matches(rs, i, c.witness@)
}

/// What is owed for the rules `rs`: an automaton that gives every string
/// the one rule that matches it, and has no state to spare unless some
/// state leads nowhere; or the conflicts, where two rules match one
/// string.
pub open spec fn compiled<Tag>(rs: Seq<TaggedRegEx<Vec<u32>, Tag>>, r: Result<TaggedDFA, GenError>) -> bool {
    match r {
        Ok(d) => d.wf() && (d.is_live() ==> d.is_minimal()) && forall|w: Seq<u32>, i: u32|
            d.tag_after(w) == Some(i) <==> #[trigger] rule_matches(rs, i, w),
        Err(GenError::Conflicts(cs)) => cs@.len() > 0 && forall|k: int|
            0 <= k < cs@.len() ==> conflict_among(rs, #[trigger] cs@[k]),
        Err(GenError::TooManyStates) => true,
    }
}

/// What holds of the rules holds of their automata, and the other way
/// round: the outcome for the automata is the outcome for the rules.
pub proof fn lemma_compiled<Tag>(
    rs: Seq<TaggedRegEx<Vec<u32>, Tag>>,
    edges: Seq<Edge>,
    start: u32,
    accepts: Seq<u32>,
    r: Result<TaggedDFA, GenError>,
)
    requires
        rules_built(rs, edges, start, accepts),
        outcome(edges, start, accepts, r),
    ensures
        compiled(rs, r),
{
    match r {
        Ok(d) => {
            assert forall|w: Seq<u32>, i: u32| d.tag_after(w) == Some(i) <==> #[trigger] rule_matches(rs, i, w) by {
                assert(rule_accepts(edges, start, accepts, i, w) <==> rule_matches(rs, i, w));
            }
        },
        Err(GenError::Conflicts(cs)) => {
            assert forall|k: int| 0 <= k < cs@.len() implies conflict_among(rs, #[trigger] cs@[k]) by {
                let c = cs@[k];
                assert(conflict_ok(edges, start, accepts, c));
                assert forall|i: u32| c.rules@.contains(i) <==> rule_matches(rs, i, c.witness@) by {
                    assert(rule_accepts(edges, start, accepts, i, c.witness@) <==> rule_matches(rs, i, c.witness@));
                }
            }
        },
        Err(GenError::TooManyStates) => {},
    }
}

/// Compiles the rules into one tagged automaton. The tag of a state is the
/// place of its rule in `rs`.
pub fn gen_dfa<Tag>(rs: &Vec<TaggedRegEx<Vec<u32>, Tag>>) -> (r: Result<TaggedDFA, GenError>)
    requires
        rules_needed(rs@, rs@.len()) + 2 <= u32::MAX,
        rs@.len() <= u32::MAX,
    ensures
        compiled(rs@, r),
        outcome(rules_arcs(rs@), rules_start(rs@), rules_ends(rs@), r),
{
    let mut builder = Builder::new();
    let mut ms: Vec<NFA> = Vec::new();
    let mut accepts: Vec<u32> = Vec::new();
    let mut i: usize = 0;
    let ghost regs = regexes(rs@);
    while i < rs.len()
        invariant
            i <= rs@.len(),
            regs == regexes(rs@),
            rules_needed(rs@, rs@.len()) + 2 <= u32::MAX,
            builder.wf(),
            builder.state_count() == sum_needed(regs, i as nat),
            ms@.len() == i,
            accepts@.len() == i,
            forall|k: int|
                0 <= k < i ==> (#[trigger] ms@[k]).start.0 < builder.state_count() && ms@[k].accepted.0
                    < builder.state_count() && accepts@[k] == ms@[k].accepted.0,
            forall|k: int| 0 <= k < i ==> #[trigger] ms@[k] == part_ends(regs, 0, k),
            grown_by(Seq::empty(), builder.edges(), parts_arcs(regs, 0, i as nat)),
            forall|k: int|
                0 <= k < i ==> fragment(
                    builder.edges(),
                    regs[k],
                    #[trigger] ms@[k],
                    part_lo(0, regs, k),
                    part_lo(0, regs, k + 1),
                ),
        decreases rs@.len() - i,
    {
        let ghost before = builder.edges();
        let ghost ms_before = ms@;
        proof {
            lemma_sum_needed_grows(regs, (i + 1) as nat, rs@.len());
        }
        let m = builder.build(&rs[i].regex);
        accepts.push(m.accepted.0);
        ms.push(m);
        proof {
            let done = parts_arcs(regs, 0, i as nat);
            let part = arcs_of(regs[i as int], part_lo(0, regs, i as int));
            assert(parts_arcs(regs, 0, (i + 1) as nat) == done + part);
            assert forall|e: Edge|
                builder.edges().contains(e) <==> Seq::<Edge>::empty().contains(e) || (done + part).contains(e) by {
                lemma_contains_add(done, part, e);
            }
            assert forall|k: int| 0 <= k < i + 1 implies #[trigger] ms@[k] == part_ends(regs, 0, k) by {
                if k < i {
                    assert(ms@[k] == ms_before[k]);
                }
            }
            assert forall|k: int| 0 <= k < i + 1 implies fragment(
                builder.edges(),
                regs[k],
                #[trigger] ms@[k],
                part_lo(0, regs, k),
                part_lo(0, regs, k + 1),
            ) by {
                if k < i {
                    assert(ms@[k] == ms_before[k]);
                    lemma_sum_needed_grows(regs, (k + 1) as nat, i as nat);
                    lemma_fragment_frame(
                        before,
                        builder.edges(),
                        regs[k],
                        ms@[k],
                        part_lo(0, regs, k),
                        part_lo(0, regs, k + 1),
                    );
                }
            }
        }
        i += 1;
    }
    let ghost parts = ms@;
    let ghost before = builder.edges();
    proof {
        builder.lemma_below();
    }
    let m = builder.alt(ms);
    let r = tag_automaton(builder, m.start, &accepts);
    proof {
        let edges = builder.edges();
        reveal(alt_built);
        assert(alt_built(before, edges, regs, parts, m, 0));
        assert forall|k: u32, w: Seq<u32>| #[trigger]
            rule_accepts(edges, m.start.0, accepts@, k, w) <==> rule_matches(rs@, k, w) by {
            if k < rs@.len() {
                lemma_alt_rule(before, edges, regs, parts, m, 0, k as int, w);
            }
        }
        assert(rules_built(rs@, edges, m.start.0, accepts@));
        lemma_compiled(rs@, edges, m.start.0, accepts@, r);
        lemma_alt_links(Seq::empty(), before, edges, regs, parts, m, 0);
        assert(same_arcs(edges, rules_arcs(rs@)));
        assert forall|k: int| 0 <= k < accepts@.len() implies accepts@[k] == rules_ends(rs@)[k] by {
            assert(parts[k] == part_ends(regs, 0, k));
        }
        assert(accepts@ =~= rules_ends(rs@));
        lemma_outcome_same_arcs(edges, rules_arcs(rs@), m.start.0, accepts@, r);
    }
    r
}

/// Whether the automata of the rules take no more states than a `u32`
/// counts, with two states to spare for their alternation.
pub fn rules_fit<Tag>(rs: &Vec<TaggedRegEx<Vec<u32>, Tag>>) -> (r: bool)
    ensures
        r == (rules_needed(rs@, rs@.len()) + 2 <= u32::MAX && rs@.len() <= u32::MAX),
{
    if rs.len() > u32::MAX as usize {
        return false;
    }
    let mut total: u32 = 0;
    let mut i: usize = 0;
    let ghost regs = regexes(rs@);
    while i < rs.len()
        invariant
            i <= rs@.len(),
            regs == regexes(rs@),
            total == sum_needed(regs, i as nat),
        decreases rs@.len() - i,
    {
        proof {
            lemma_sum_needed_grows(regs, (i + 1) as nat, rs@.len());
        }
        match count_states(&rs[i].regex) {
            Some(n) => match total.checked_add(n) {
                Some(t) => {
                    total = t;
                },
                None => {
                    return false;
                },
            },
            None => {
                return false;
            },
        }
        i += 1;
    }
    total <= u32::MAX - 2
}

/// The outcome is that the automaton would have too many states.
pub open spec fn too_many(r: Result<TaggedDFA, GenError>) -> bool {
    r matches Err(GenError::TooManyStates)
}

/// What is owed for the rules `rs` whatever their size: what is owed for
/// the rules and for their automata where these take no more states than
/// a `u32` counts, and word that they are too many where they take more.
pub open spec fn compile_ok<Tag>(rs: Seq<TaggedRegEx<Vec<u32>, Tag>>, r: Result<TaggedDFA, GenError>) -> bool {
    &&& compiled(rs, r)
    &&& !(rules_needed(rs, rs.len()) + 2 <= u32::MAX && rs.len() <= u32::MAX) ==> too_many(r)
    &&& rules_needed(rs, rs.len()) + 2 <= u32::MAX && rs.len() <= u32::MAX ==> outcome(
        rules_arcs(rs),
        rules_start(rs),
        rules_ends(rs),
        r,
    )
}

/// Compiles the rules into one tagged automaton, if their automata take no
/// more states than a `u32` counts.
pub fn compile<Tag>(rs: &Vec<TaggedRegEx<Vec<u32>, Tag>>) -> (r: Result<TaggedDFA, GenError>)
    ensures
        compile_ok(rs@, r),
{
    if rules_fit(rs) {
        gen_dfa(rs)
    } else {
        Err(GenError::TooManyStates)
    }
}

/// The names of the rules of a conflict, separated by a comma and a space.
pub open spec fn names_text(names: Seq<String>, rules: Seq<u32>, n: nat) -> Seq<char>
    decreases n,
{
    if n == 0 || n > rules.len() {
        Seq::empty()
    } else if n == 1 {
        names[rules[0] as int]@
    } else {
        names_text(names, rules, (n - 1) as nat) + ", "@ + names[rules[n - 1] as int]@
    }
}

/// The first characters of the blocks of a witness, each in its escaped
/// form.
pub open spec fn witness_text(chars: Seq<u32>, witness: Seq<u32>, n: nat) -> Seq<char>
    decreases n,
{
    if n == 0 || n > witness.len() {
        Seq::empty()
    } else {
        witness_text(chars, witness, (n - 1) as nat) + escaped(spec_display_char(chars[witness[n - 1] as int]))
    }
}

/// The message of a conflict.
pub open spec fn conflict_text(names: Seq<String>, chars: Seq<u32>, c: Conflict) -> Seq<char> {
    "lexeme types ["@ + names_text(names, c.rules@, c.rules@.len()) + "] conflict on input \""@ + witness_text(
        chars,
        c.witness@,
        c.witness@.len(),
    ) + "\"."@
}

impl Conflict {
    /// The message of the conflict: the names of the rules, and the witness
    /// as a string, made of the lowest character of each of its blocks.
    /// `names[i]` is the name of rule `i`, and `chars` the table of split
    /// points.
    pub fn message(&self, names: &Vec<String>, chars: &[u32]) -> (text: String)
        requires
            forall|i: int| 0 <= i < self.rules@.len() ==> self.rules@[i] < names@.len(),
            forall|i: int| 0 <= i < self.witness@.len() ==> self.witness@[i] < chars@.len(),
        ensures
            text@ == conflict_text(names@, chars@, *self),
    {
        let mut text = String::new();
        push_str(&mut text, "lexeme types [");
        let ghost head = text@;
        let mut i: usize = 0;
        proof {
            assert(text@ =~= head + names_text(names@, self.rules@, 0));
        }
        while i < self.rules.len()
            invariant
                i <= self.rules@.len(),
                forall|k: int| 0 <= k < self.rules@.len() ==> self.rules@[k] < names@.len(),
                text@ == head + names_text(names@, self.rules@, i as nat),
            decreases self.rules@.len() - i,
        {
            let ghost before = text@;
            if i > 0 {
                push_str(&mut text, ", ");
            }
            push_str(&mut text, names[self.rules[i] as usize].as_str());
            proof {
                if i == 0 {
                    assert(names_text(names@, self.rules@, 0) =~= Seq::<char>::empty());
                    assert(text@ =~= head + names_text(names@, self.rules@, 1));
                } else {
                    assert(text@ =~= head + names_text(names@, self.rules@, (i + 1) as nat));
                }
            }
            i += 1;
        }
        push_str(&mut text, "] conflict on input \"");
        let ghost middle = text@;
        let mut k: usize = 0;
        proof {
            assert(text@ =~= middle + witness_text(chars@, self.witness@, 0));
        }
        while k < self.witness.len()
            invariant
                k <= self.witness@.len(),
                forall|x: int| 0 <= x < self.witness@.len() ==> self.witness@[x] < chars@.len(),
                text@ == middle + witness_text(chars@, self.witness@, k as nat),
            decreases self.witness@.len() - k,
        {
            let c = display_char(chars[self.witness[k] as usize]);
            push_escaped(&mut text, c);
            proof {
                assert(text@ =~= middle + witness_text(chars@, self.witness@, (k + 1) as nat));
            }
            k += 1;
        }
        push_str(&mut text, "\".");
        proof {
            assert(text@ =~= conflict_text(names@, chars@, *self));
        }
        text
    }
}

} // verus!
