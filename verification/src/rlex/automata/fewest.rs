//! Why no automaton does with fewer states what a minimal one does.

use vstd::prelude::*;
use crate::rlex::automata::builder::determine::DFA;
use crate::rlex::automata::language::{run_from, step_of};
use crate::rlex::automata::minimize::{
    accepts_some,
    class_of_step,
    equivalent,
    folds_by,
    label_after,
    label_from,
    lemma_run_within,
    live,
    minimal,
    stands_for,
};
use crate::rlex::partition_refinement::lemma_pigeonhole;

verus! {

/// The automaton is in state `q` after some string.
pub open spec fn reached(moves: Seq<(u32, u32, u32)>, q: u32) -> bool {
    exists|w: Seq<u32>| #[trigger] run_from(moves, 0, w) == Some(q)
}

/// The automaton is in every one of its `n` states after some string.
pub open spec fn all_reached(moves: Seq<(u32, u32, u32)>, n: int) -> bool {
    forall|q: u32| q < n ==> #[trigger] reached(moves, q)
}

/// Reading one string and then another is reading the second from where
/// the first leads.
pub proof fn lemma_run_then(moves: Seq<(u32, u32, u32)>, x: u32, u: Seq<u32>, z: Seq<u32>)
    ensures
        run_from(moves, x, u + z) == match run_from(moves, x, u) {
            Some(p) => run_from(moves, p, z),
            None => None,
        },
    decreases z.len(),
{
    if z.len() == 0 {
        assert(u + z =~= u);
    } else {
        lemma_run_then(moves, x, u, z.drop_last());
        assert((u + z).drop_last() =~= u + z.drop_last());
        assert((u + z).last() == z.last());
    }
}

/// An automaton that is folded onto another runs as the other does: after
/// any string the other is in the state to which the state of the first
/// is sent, and it misses a move where the first does.
pub proof fn lemma_fold_runs(
    moves: Seq<(u32, u32, u32)>,
    labels: Seq<Option<u32>>,
    class: Seq<u32>,
    q_moves: Seq<(u32, u32, u32)>,
    q_labels: Seq<Option<u32>>,
    w: Seq<u32>,
)
    requires
        folds_by(moves, labels, class, q_moves, q_labels),
        forall|i: int| 0 <= i < moves.len() ==> (#[trigger] moves[i]).2 < class.len(),
    ensures
        run_from(q_moves, 0, w) == class_of_step(run_from(moves, 0, w), class),
    decreases w.len(),
{
    if w.len() > 0 {
        lemma_fold_runs(moves, labels, class, q_moves, q_labels, w.drop_last());
        lemma_run_within(moves, class.len() as int, w.drop_last());
        match run_from(moves, 0, w.drop_last()) {
            Some(p) => {
                assert(step_of(q_moves, class[p as int], w.last()) == class_of_step(
                    step_of(moves, p, w.last()),
                    class,
                ));
            },
            None => {},
        }
    }
}

/// Where an automaton is in each of its states after some string, so is
/// the automaton onto which it is folded.
pub proof fn lemma_folded_reached(
    moves: Seq<(u32, u32, u32)>,
    labels: Seq<Option<u32>>,
    class: Seq<u32>,
    q_moves: Seq<(u32, u32, u32)>,
    q_labels: Seq<Option<u32>>,
)
    requires
        folds_by(moves, labels, class, q_moves, q_labels),
        labels.len() <= u32::MAX,
        forall|i: int| 0 <= i < moves.len() ==> (#[trigger] moves[i]).2 < class.len(),
        all_reached(moves, class.len() as int),
    ensures
        all_reached(q_moves, q_labels.len() as int),
{
    assert forall|b: u32| b < q_labels.len() implies #[trigger] reached(q_moves, b) by {
        assert(stands_for(class, b as int));
        let s = choose|s: int| 0 <= s < class.len() && #[trigger] class[s] == b as int;
        assert(reached(moves, s as u32));
        let w = choose|w: Seq<u32>| #[trigger] run_from(moves, 0, w) == Some(s as u32);
        lemma_fold_runs(moves, labels, class, q_moves, q_labels, w);
        assert(run_from(q_moves, 0, w) == Some(b));
    }
}

/// No automaton does with fewer states what a minimal one does: where no
/// state of an automaton is dead, no two are equivalent and it is in each
/// after some string, every automaton that gives every string the same
/// label has as many states at least.
pub proof fn lemma_fewest_states(
    moves: Seq<(u32, u32, u32)>,
    labels: Seq<Option<u32>>,
    other_moves: Seq<(u32, u32, u32)>,
    other_labels: Seq<Option<u32>>,
)
    requires
        labels.len() <= u32::MAX,
        other_labels.len() >= 1,
        forall|i: int| 0 <= i < other_moves.len() ==> (#[trigger] other_moves[i]).2 < other_labels.len(),
        live(moves, labels, labels.len() as int),
        minimal(moves, labels, labels.len() as int),
        all_reached(moves, labels.len() as int),
        forall|w: Seq<u32>| #[trigger] label_after(moves, labels, w) == label_after(other_moves, other_labels, w),
    ensures
        labels.len() <= other_labels.len(),
{
    let n = labels.len() as int;
    let m = other_labels.len() as int;
    let words = Seq::new(n as nat, |q: int| choose|w: Seq<u32>| #[trigger] run_from(moves, 0, w) == Some(q as u32));
    let states = Seq::new(
        n as nat,
        |q: int|
            match run_from(other_moves, 0, words[q]) {
                Some(s) => s as int,
                None => 0,
            },
    );
    assert forall|q: int| 0 <= q < n implies run_from(moves, 0, #[trigger] words[q]) == Some(q as u32)
        && run_from(other_moves, 0, words[q]) is Some by {
        assert(reached(moves, q as u32));
        assert(accepts_some(moves, labels, q as u32));
        let z = choose|z: Seq<u32>| (#[trigger] label_from(moves, labels, q as u32, z)).is_some();
        lemma_run_then(moves, 0, words[q], z);
        lemma_run_then(other_moves, 0, words[q], z);
        assert(label_after(moves, labels, words[q] + z) == label_after(other_moves, other_labels, words[q] + z));
    }
    assert forall|q: int| 0 <= q < states.len() implies 0 <= #[trigger] states[q] < m by {
        lemma_run_within(other_moves, m, words[q]);
    }
    assert forall|a: int, b: int| 0 <= a < b < states.len() implies states[a] != states[b] by {
        assert(run_from(other_moves, 0, words[a]) is Some);
        assert(run_from(other_moves, 0, words[b]) is Some);
        if states[a] == states[b] {
            assert forall|z: Seq<u32>| #[trigger]
                label_from(moves, labels, a as u32, z) == label_from(moves, labels, b as u32, z) by {
                lemma_run_then(moves, 0, words[a], z);
                lemma_run_then(other_moves, 0, words[a], z);
                lemma_run_then(moves, 0, words[b], z);
                lemma_run_then(other_moves, 0, words[b], z);
                assert(label_after(moves, labels, words[a] + z) == label_after(
                    other_moves,
                    other_labels,
                    words[a] + z,
                ));
                assert(label_after(moves, labels, words[b] + z) == label_after(
                    other_moves,
                    other_labels,
                    words[b] + z,
                ));
            }
            assert(equivalent(moves, labels, a as u32, b as u32));
        }
    }
    lemma_pigeonhole(states, m);
}

impl DFA {
    /// The automaton is in each of its states after some string.
    pub open spec fn is_trim(&self) -> bool {
        all_reached(self.moves(), self.states() as int)
    }

    /// No automaton accepts with fewer states what a minimal one accepts:
    /// where no state of this automaton is dead, no two are equivalent and
    /// it is in each after some string, every automaton that accepts the
    /// same strings has as many states at least.
    pub proof fn lemma_no_smaller(&self, other: &DFA)
        requires
            self.wf(),
            other.wf(),
            self.is_live(),
            self.is_minimal(),
            self.is_trim(),
            forall|w: Seq<u32>| self.accepts(w) <==> other.accepts(w),
        ensures
            self.states() <= other.states(),
    {
        assert forall|w: Seq<u32>| #[trigger]
            label_after(self.moves(), self.labels(), w) == label_after(other.moves(), other.labels(), w) by {
            lemma_run_within(self.moves(), self.states() as int, w);
            lemma_run_within(other.moves(), other.states() as int, w);
            assert(self.accepts(w) <==> other.accepts(w));
        }
        lemma_fewest_states(self.moves(), self.labels(), other.moves(), other.labels());
    }

    /// Where this automaton is in each of its states after some string, so
    /// is every automaton onto which it is folded.
    pub proof fn lemma_folded_trim(&self, folded: &DFA)
        requires
            self.wf(),
            self.is_trim(),
            crate::rlex::automata::minimize::folds_onto(self.moves(), self.labels(), folded.moves(), folded.labels()),
        ensures
            folded.is_trim(),
    {
        let class = choose|class: Seq<u32>| #[trigger]
            folds_by(self.moves(), self.labels(), class, folded.moves(), folded.labels());
        lemma_folded_reached(self.moves(), self.labels(), class, folded.moves(), folded.labels());
    }
}

} // verus!
