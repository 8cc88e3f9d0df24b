//! What regular expressions match, and why the automaton that is built for
//! an expression accepts exactly that.

use vstd::prelude::*;
use crate::rlex::ast::RegEx;
use crate::rlex::automata::builder::{alt_edge, concat_edge, link_to, sum_needed, lemma_sum_needed_grows, Edge, NFAInput, NFA};
use crate::rlex::automata::language::{
    eps_edge,
    is_walk,
    lemma_join_walks,
    lemma_reaches_concat,
    lemma_reaches_self,
    lemma_reaches_then_eps,
    lemma_reaches_then_sym,
    nfa_reaches,
    spelled,
    sym_edge,
};

verus! {

/// Marks the number that a statement of existence speaks of.
pub open spec fn chosen(i: int) -> bool {
    true
}

/// Whether the expression matches the string of blocks `w`.
pub open spec fn regex_matches(r: RegEx<Vec<u32>>, w: Seq<u32>) -> bool
    decreases r, 0nat,
{
    match r {
        RegEx::Atom(v) => w.len() == 1 && v@.contains(w[0]),
        RegEx::Alt(rs) => exists|i: int| #[trigger] chosen(i) && 0 <= i < rs@.len() && regex_matches(rs@[i], w),
        RegEx::Concat(rs) => matches_from(rs@, 0, w),
        RegEx::OneOrMore(x) => exists|n: int| #[trigger] chosen(n) && n >= 1 && repeats(*x, n as nat, w),
        RegEx::Optional(x) => w.len() == 0 || regex_matches(*x, w),
    }
}

/// Whether `w` is made of strings that the expressions from place `i` on
/// match, one after the other.
pub open spec fn matches_from(rs: Seq<RegEx<Vec<u32>>>, i: nat, w: Seq<u32>) -> bool
    decreases rs, rs.len() - i,
{
    if i >= rs.len() {
        w.len() == 0
    } else {
        exists|k: int|
            #[trigger] chosen(k) && 0 <= k <= w.len() && regex_matches(rs[i as int], w.take(k)) && matches_from(
                rs,
                i + 1,
                w.skip(k),
            )
    }
}

/// Whether `w` is made of `n` strings that the expression matches.
pub open spec fn repeats(x: RegEx<Vec<u32>>, n: nat, w: Seq<u32>) -> bool
    decreases x, n + 1,
{
    if n == 0 {
        w.len() == 0
    } else {
        exists|k: int|
            #[trigger] chosen(k) && 0 <= k <= w.len() && regex_matches(x, w.take(k)) && repeats(
                x,
                (n - 1) as nat,
                w.skip(k),
            )
    }
}

/// State `x` lies in the stretch of states from `lo` up to `hi`.
pub open spec fn inside(x: u32, lo: int, hi: int) -> bool {
    lo <= x < hi
}

/// No transition leads out of the stretch of states or into it.
pub open spec fn region_closed(edges: Seq<Edge>, lo: int, hi: int) -> bool {
    forall|e: Edge|
        #[trigger] edges.contains(e) ==> (inside(e.departure.0, lo, hi) <==> inside(e.destination.0, lo, hi))
}

/// The automaton `m` among `edges` is the automaton of the expression `r`:
/// its states lie in the stretch from `lo` up to `hi`, which no transition
/// leaves or enters, and it accepts exactly what `r` matches.
pub open spec fn fragment(edges: Seq<Edge>, r: RegEx<Vec<u32>>, m: NFA, lo: int, hi: int) -> bool {
    &&& inside(m.start.0, lo, hi)
    &&& inside(m.accepted.0, lo, hi)
    &&& region_closed(edges, lo, hi)
    &&& forall|w: Seq<u32>| #[trigger] nfa_reaches(edges, m.start.0, w, m.accepted.0) <==> regex_matches(r, w)
}

/// Every transition of `edges` runs between states below `lo`.
pub open spec fn below(edges: Seq<Edge>, lo: int) -> bool {
    forall|e: Edge| #[trigger] edges.contains(e) ==> e.departure.0 < lo && e.destination.0 < lo
}

/// Every transition of `more` that is none of `edges` runs between states
/// from `lo` on.
pub open spec fn added_above(edges: Seq<Edge>, more: Seq<Edge>, lo: int) -> bool {
    forall|e: Edge|
        #[trigger] more.contains(e) && !edges.contains(e) ==> e.departure.0 >= lo && e.destination.0 >= lo
}

/// A chain cut in two is two chains, which read what the chain reads.
pub proof fn lemma_walk_split(edges: Seq<Edge>, walk: Seq<Edge>, s: u32, t: u32, k: int) -> (mid: u32)
    requires
        is_walk(edges, walk, s, t),
        0 <= k <= walk.len(),
    ensures
        mid == if k == 0 {
            s
        } else {
            walk[k - 1].destination.0
        },
        k < walk.len() ==> mid == walk[k].departure.0,
        is_walk(edges, walk.take(k), s, mid),
        is_walk(edges, walk.skip(k), mid, t),
        spelled(walk) == spelled(walk.take(k)) + spelled(walk.skip(k)),
{
    let mid = if k == 0 {
        s
    } else {
        walk[k - 1].destination.0
    };
    let a = walk.take(k);
    let b = walk.skip(k);
    assert forall|i: int| 0 <= i < a.len() implies edges.contains(#[trigger] a[i]) by {
        assert(a[i] == walk[i]);
    }
    assert forall|i: int, j: int|
        #![trigger a[i], a[j]]
        0 <= i && j == i + 1 && j < a.len() implies a[i].destination.0 == a[j].departure.0 by {
        assert(a[i] == walk[i]);
        assert(a[j] == walk[j]);
    }
    assert forall|i: int| 0 <= i < b.len() implies edges.contains(#[trigger] b[i]) by {
        assert(b[i] == walk[i + k]);
    }
    assert forall|i: int, j: int|
        #![trigger b[i], b[j]]
        0 <= i && j == i + 1 && j < b.len() implies b[i].destination.0 == b[j].departure.0 by {
        assert(b[i] == walk[i + k]);
        assert(b[j] == walk[j + k]);
    }
    if a.len() > 0 {
        assert(a[0] == walk[0]);
        assert(a.last() == walk[k - 1]);
    }
    if b.len() > 0 {
        assert(b[0] == walk[k]);
        assert(b.last() == walk[walk.len() - 1]);
        if k > 0 {
            assert(walk[k - 1].destination.0 == walk[k].departure.0);
        }
    }
    assert(is_walk(edges, a, s, mid));
    assert(is_walk(edges, b, mid, t));
    lemma_join_walks(edges, a, b, s, mid, t);
    assert(a + b =~= walk);
    mid
}

/// A chain that begins in a stretch of states which no transition leaves
/// stays in it.
pub proof fn lemma_stay_inside(edges: Seq<Edge>, walk: Seq<Edge>, s: u32, t: u32, lo: int, hi: int)
    requires
        is_walk(edges, walk, s, t),
        inside(s, lo, hi),
        forall|e: Edge| #[trigger] edges.contains(e) && inside(e.departure.0, lo, hi) ==> inside(e.destination.0, lo, hi),
    ensures
        inside(t, lo, hi),
        forall|i: int|
            0 <= i < walk.len() ==> inside((#[trigger] walk[i]).departure.0, lo, hi) && inside(
                walk[i].destination.0,
                lo,
                hi,
            ),
    decreases walk.len(),
{
    if walk.len() > 0 {
        let shorter = walk.drop_last();
        let mid = lemma_walk_split(edges, walk, s, t, walk.len() - 1);
        assert(walk.take(walk.len() - 1) =~= shorter);
        lemma_stay_inside(edges, shorter, s, mid, lo, hi);
        let e = walk.last();
        assert(edges.contains(walk[walk.len() - 1]));
        assert(e.departure.0 == mid);
        assert forall|i: int| 0 <= i < walk.len() implies inside((#[trigger] walk[i]).departure.0, lo, hi)
            && inside(walk[i].destination.0, lo, hi) by {
            if i < walk.len() - 1 {
                assert(walk[i] == shorter[i]);
            }
        }
    }
}

/// The first transition of a chain, from place `i` on, that leaves a
/// stretch of states.
proof fn lemma_first_exit_from(walk: Seq<Edge>, lo: int, hi: int, i: int) -> (k: int)
    requires
        0 <= i < walk.len(),
        !inside(walk.last().destination.0, lo, hi),
        forall|j: int| 0 <= j < i ==> inside((#[trigger] walk[j]).destination.0, lo, hi),
    ensures
        i <= k < walk.len(),
        !inside(walk[k].destination.0, lo, hi),
        forall|j: int| 0 <= j < k ==> inside((#[trigger] walk[j]).destination.0, lo, hi),
    decreases walk.len() - i,
{
    if !inside(walk[i].destination.0, lo, hi) {
        i
    } else {
        lemma_first_exit_from(walk, lo, hi, i + 1)
    }
}

/// A chain that begins in a stretch of states and ends outside leaves it
/// by some transition; up to the first such transition it stays inside.
pub proof fn lemma_first_exit(edges: Seq<Edge>, walk: Seq<Edge>, s: u32, t: u32, lo: int, hi: int) -> (k: int)
    requires
        is_walk(edges, walk, s, t),
        inside(s, lo, hi),
        !inside(t, lo, hi),
    ensures
        0 <= k < walk.len(),
        inside(walk[k].departure.0, lo, hi),
        !inside(walk[k].destination.0, lo, hi),
        forall|j: int|
            0 <= j < k ==> inside((#[trigger] walk[j]).departure.0, lo, hi) && inside(walk[j].destination.0, lo, hi),
{
    let k = lemma_first_exit_from(walk, lo, hi, 0);
    assert forall|j: int| 0 <= j <= k implies inside((#[trigger] walk[j]).departure.0, lo, hi) by {
        if j > 0 {
            assert(walk[j - 1].destination.0 == walk[j].departure.0);
        }
    }
    k
}

/// From a state that no transition departs from, a chain leads nowhere.
pub proof fn lemma_sink(edges: Seq<Edge>, walk: Seq<Edge>, t: u32, u: u32)
    requires
        is_walk(edges, walk, t, u),
        forall|e: Edge| #[trigger] edges.contains(e) ==> e.departure.0 != t,
    ensures
        walk.len() == 0,
        u == t,
{
    if walk.len() > 0 {
        assert(edges.contains(walk[0]));
    }
}

/// A chain of transitions that are all among `other` is a chain there.
pub proof fn lemma_walk_among(edges: Seq<Edge>, other: Seq<Edge>, walk: Seq<Edge>, s: u32, t: u32)
    requires
        is_walk(edges, walk, s, t),
        forall|i: int| 0 <= i < walk.len() ==> other.contains(#[trigger] walk[i]),
    ensures
        is_walk(other, walk, s, t),
{
}

/// What is reached among some transitions is reached among more.
pub proof fn lemma_reaches_grows(edges: Seq<Edge>, more: Seq<Edge>, s: u32, w: Seq<u32>, t: u32)
    requires
        forall|e: Edge| edges.contains(e) ==> more.contains(e),
        nfa_reaches(edges, s, w, t),
    ensures
        nfa_reaches(more, s, w, t),
{
    let walk = choose|walk: Seq<Edge>| #[trigger] is_walk(edges, walk, s, t) && spelled(walk) == w;
    assert forall|i: int| 0 <= i < walk.len() implies more.contains(#[trigger] walk[i]) by {
        assert(edges.contains(walk[i]));
    }
    lemma_walk_among(edges, more, walk, s, t);
}

/// One transition that reads nothing is a chain that reads nothing.
pub proof fn lemma_eps_step(edges: Seq<Edge>, s: u32, t: u32)
    requires
        edges.contains(eps_edge(s, t)),
    ensures
        nfa_reaches(edges, s, Seq::empty(), t),
{
    lemma_reaches_self(edges, s);
    lemma_reaches_then_eps(edges, s, Seq::empty(), s, t);
}

/// The automaton of an expression stays what it is when transitions are
/// added outside the stretch of its states.
pub proof fn lemma_fragment_frame(
    edges: Seq<Edge>,
    more: Seq<Edge>,
    r: RegEx<Vec<u32>>,
    m: NFA,
    lo: int,
    hi: int,
)
    requires
        fragment(edges, r, m, lo, hi),
        forall|e: Edge| edges.contains(e) ==> more.contains(e),
        forall|e: Edge|
            #[trigger] more.contains(e) && !edges.contains(e) ==> !inside(e.departure.0, lo, hi) && !inside(
                e.destination.0,
                lo,
                hi,
            ),
    ensures
        fragment(more, r, m, lo, hi),
{
    assert forall|e: Edge| #[trigger] more.contains(e) implies (inside(e.departure.0, lo, hi) <==> inside(
        e.destination.0,
        lo,
        hi,
    )) by {
        if edges.contains(e) {
        }
    }
    assert forall|w: Seq<u32>| #[trigger] nfa_reaches(more, m.start.0, w, m.accepted.0) <==> regex_matches(r, w) by {
        if nfa_reaches(more, m.start.0, w, m.accepted.0) {
            let walk = choose|walk: Seq<Edge>|
                #[trigger] is_walk(more, walk, m.start.0, m.accepted.0) && spelled(walk) == w;
            lemma_stay_inside(more, walk, m.start.0, m.accepted.0, lo, hi);
            assert forall|i: int| 0 <= i < walk.len() implies edges.contains(#[trigger] walk[i]) by {
                assert(more.contains(walk[i]));
            }
            lemma_walk_among(more, edges, walk, m.start.0, m.accepted.0);
            assert(nfa_reaches(edges, m.start.0, w, m.accepted.0));
        }
        if regex_matches(r, w) {
            assert(nfa_reaches(edges, m.start.0, w, m.accepted.0));
            lemma_reaches_grows(edges, more, m.start.0, w, m.accepted.0);
        }
    }
}

/// Where an automaton was put together from automata with states from
/// `lo` up to `mid`, by transitions among the states from `lo` up to `hi`,
/// no transition leaves or enters that stretch, and what was there before
/// lies below it.
pub proof fn lemma_glued(
    before: Seq<Edge>,
    edges: Seq<Edge>,
    more: Seq<Edge>,
    lo: int,
    mid: int,
    hi: int,
)
    requires
        below(before, lo),
        added_above(before, edges, lo),
        below(edges, mid),
        lo <= mid <= hi,
        forall|e: Edge| before.contains(e) ==> edges.contains(e),
        forall|e: Edge| edges.contains(e) ==> more.contains(e),
        forall|e: Edge|
            #[trigger] more.contains(e) && !edges.contains(e) ==> inside(e.departure.0, lo, hi) && inside(
                e.destination.0,
                lo,
                hi,
            ),
    ensures
        region_closed(more, lo, hi),
        added_above(before, more, lo),
{
    assert forall|e: Edge| #[trigger] more.contains(e) implies (inside(e.departure.0, lo, hi) <==> inside(
        e.destination.0,
        lo,
        hi,
    )) by {
        if edges.contains(e) {
            if before.contains(e) {
            }
        }
    }
    assert forall|e: Edge| #[trigger] more.contains(e) && !before.contains(e) implies e.departure.0 >= lo
        && e.destination.0 >= lo by {
        if edges.contains(e) {
        }
    }
}

/// A chain that begins at the start of an automaton and ends outside the
/// stretch of its states goes through the automaton: where the only
/// transition that leaves the stretch leads from the accepting state to
/// `exit_to`, the chain is a chain of the automaton from start to accepting
/// state, then that transition, then a chain from `exit_to` on.
pub proof fn lemma_through(
    edges: Seq<Edge>,
    more: Seq<Edge>,
    r: RegEx<Vec<u32>>,
    m: NFA,
    lo: int,
    hi: int,
    exit_to: u32,
    walk: Seq<Edge>,
    target: u32,
) -> (k: int)
    requires
        fragment(edges, r, m, lo, hi),
        is_walk(more, walk, m.start.0, target),
        !inside(target, lo, hi),
        forall|e: Edge|
            #[trigger] more.contains(e) && inside(e.departure.0, lo, hi) ==> edges.contains(e) || e == eps_edge(
                m.accepted.0,
                exit_to,
            ),
        !inside(exit_to, lo, hi),
    ensures
        0 <= k <= spelled(walk).len(),
        regex_matches(r, spelled(walk).take(k)),
        nfa_reaches(more, exit_to, spelled(walk).skip(k), target),
{
    let i = lemma_first_exit(more, walk, m.start.0, target, lo, hi);
    let mid = lemma_walk_split(more, walk, m.start.0, target, i);
    let prefix = walk.take(i);
    let rest = walk.skip(i);
    assert(more.contains(walk[i]));
    assert(walk[i] == eps_edge(m.accepted.0, exit_to)) by {
        if edges.contains(walk[i]) {
        }
    }
    assert forall|j: int| 0 <= j < prefix.len() implies edges.contains(#[trigger] prefix[j]) by {
        assert(prefix[j] == walk[j]);
        assert(more.contains(walk[j]));
        assert(inside(walk[j].departure.0, lo, hi) && inside(walk[j].destination.0, lo, hi));
    }
    lemma_walk_among(more, edges, prefix, m.start.0, mid);
    assert(mid == m.accepted.0);
    assert(nfa_reaches(edges, m.start.0, spelled(prefix), m.accepted.0));
    let mid2 = lemma_walk_split(more, rest, mid, target, 1);
    assert(rest[0] == walk[i]);
    assert(rest.take(1) =~= seq![walk[i]]);
    assert(spelled(rest.take(1)) =~= Seq::<u32>::empty()) by {
        let one = rest.take(1);
        assert(one.drop_last() =~= Seq::<Edge>::empty());
        assert(one.last() == walk[i]);
        assert(spelled(one.drop_last()) =~= Seq::<u32>::empty());
    }
    assert(mid2 == exit_to);
    let w1 = spelled(prefix);
    let w2 = spelled(rest.skip(1));
    assert(spelled(rest) =~= w2);
    assert(spelled(walk) =~= w1 + w2);
    assert(spelled(walk).take(w1.len() as int) =~= w1);
    assert(spelled(walk).skip(w1.len() as int) =~= w2);
    assert(nfa_reaches(more, exit_to, w2, target));
    w1.len() as int
}

/// A chain without its first transition is a chain from where that
/// transition leads, and reads the rest.
pub proof fn lemma_first_step(edges: Seq<Edge>, walk: Seq<Edge>, s: u32, t: u32)
    requires
        is_walk(edges, walk, s, t),
        walk.len() > 0,
    ensures
        edges.contains(walk[0]),
        walk[0].departure.0 == s,
        is_walk(edges, walk.skip(1), walk[0].destination.0, t),
        spelled(walk) == match walk[0].input.0 {
            None => spelled(walk.skip(1)),
            Some(c) => seq![c] + spelled(walk.skip(1)),
        },
{
    let mid = lemma_walk_split(edges, walk, s, t, 1);
    let one = walk.take(1);
    assert(one.drop_last() =~= Seq::<Edge>::empty());
    assert(one.last() == walk[0]);
    assert(spelled(one.drop_last()) =~= Seq::<u32>::empty());
    match walk[0].input.0 {
        None => {
            assert(spelled(one) =~= Seq::<u32>::empty());
            assert(spelled(walk) =~= spelled(walk.skip(1)));
        },
        Some(c) => {
            assert(spelled(one) =~= seq![c]);
        },
    }
}

/// The automaton of an atom accepts the blocks of the atom, one at a time.
pub proof fn lemma_atom(edges: Seq<Edge>, more: Seq<Edge>, v: Vec<u32>, m: NFA, lo: int)
    requires
        below(edges, lo),
        m.start.0 == lo,
        m.accepted.0 == lo + 1,
        forall|e: Edge|
            #![trigger more.contains(e)]
            #![trigger edges.contains(e)]
            more.contains(e) <==> (edges.contains(e) || (e.departure.0 == m.start.0 && e.destination.0
                == m.accepted.0 && exists|i: int| 0 <= i < v@.len() && e.input.0 == Some(#[trigger] v@[i]))),
    ensures
        fragment(more, RegEx::Atom(v), m, lo, lo + 2),
        added_above(edges, more, lo),
{
    let s = m.start.0;
    let t = m.accepted.0;
    assert forall|e: Edge| #[trigger] more.contains(e) implies (inside(e.departure.0, lo, lo + 2) <==> inside(
        e.destination.0,
        lo,
        lo + 2,
    )) by {
        if edges.contains(e) {
        }
    }
    assert forall|w: Seq<u32>| #[trigger] nfa_reaches(more, s, w, t) <==> regex_matches(RegEx::Atom(v), w) by {
        if nfa_reaches(more, s, w, t) {
            let walk = choose|walk: Seq<Edge>| #[trigger] is_walk(more, walk, s, t) && spelled(walk) == w;
            lemma_first_step(more, walk, s, t);
            let e = walk[0];
            assert(!edges.contains(e));
            let i = choose|i: int| 0 <= i < v@.len() && e.input.0 == Some(#[trigger] v@[i]);
            assert forall|x: Edge| #[trigger] more.contains(x) implies x.departure.0 != t by {
                if edges.contains(x) {
                }
            }
            lemma_sink(more, walk.skip(1), t, t);
            assert(spelled(walk.skip(1)) =~= Seq::<u32>::empty());
            assert(w =~= seq![v@[i]]);
        }
        if regex_matches(RegEx::Atom(v), w) {
            let c = w[0];
            let i = choose|i: int| 0 <= i < v@.len() && v@[i] == c;
            let e = sym_edge(s, c, t);
            assert(e.input.0 == Some(v@[i]));
            assert(more.contains(e));
            lemma_reaches_self(more, s);
            lemma_reaches_then_sym(more, s, Seq::empty(), s, c, t);
            assert(Seq::<u32>::empty().push(c) =~= w);
        }
    }
}

/// Where the states of part `i` begin, when the parts are built one after
/// the other from state `base` on.
pub open spec fn part_lo(base: int, rs: Seq<RegEx<Vec<u32>>>, i: int) -> int {
    base + sum_needed(rs, i as nat)
}

/// The automata `ms` among `edges` are the automata of the expressions
/// `rs`, built one after the other from state `base` on.
pub open spec fn parts_built(edges: Seq<Edge>, rs: Seq<RegEx<Vec<u32>>>, ms: Seq<NFA>, base: int) -> bool {
    &&& ms.len() == rs.len()
    &&& forall|i: int|
        0 <= i < rs.len() ==> fragment(edges, rs[i], #[trigger] ms[i], part_lo(base, rs, i), part_lo(base, rs, i + 1))
}

/// A state lies among the states of one part only.
proof fn lemma_parts_apart(rs: Seq<RegEx<Vec<u32>>>, base: int, i: int, j: int, x: u32)
    requires
        0 <= i < rs.len(),
        0 <= j < rs.len(),
        inside(x, part_lo(base, rs, i), part_lo(base, rs, i + 1)),
        inside(x, part_lo(base, rs, j), part_lo(base, rs, j + 1)),
    ensures
        i == j,
{
    if i < j {
        lemma_sum_needed_grows(rs, (i + 1) as nat, j as nat);
    }
    if j < i {
        lemma_sum_needed_grows(rs, (j + 1) as nat, i as nat);
    }
}

/// The states of a part lie below the states that come after all parts.
proof fn lemma_part_below(rs: Seq<RegEx<Vec<u32>>>, base: int, i: int)
    requires
        0 <= i < rs.len(),
    ensures
        part_lo(base, rs, i + 1) <= part_lo(base, rs, rs.len() as int),
        base <= part_lo(base, rs, i),
{
    lemma_sum_needed_grows(rs, (i + 1) as nat, rs.len());
}

/// What holds once an alternation `m` was made of the automata `ms`.
#[verifier::opaque]
pub open spec fn alt_built(
    edges: Seq<Edge>,
    more: Seq<Edge>,
    rs: Seq<RegEx<Vec<u32>>>,
    ms: Seq<NFA>,
    m: NFA,
    base: int,
) -> bool {
    &&& parts_built(edges, rs, ms, base)
    &&& below(edges, part_lo(base, rs, rs.len() as int))
    &&& m.start.0 == part_lo(base, rs, rs.len() as int)
    &&& m.accepted.0 == m.start.0 + 1
    &&& forall|e: Edge|
        #![trigger more.contains(e)]
        #![trigger edges.contains(e)]
        more.contains(e) <==> (edges.contains(e) || exists|i: int|
            0 <= i < ms.len() && alt_edge(e, m, #[trigger] ms[i]))
}

/// In an alternation, the only way out of a part leads from its accepting
/// state to the accepting state of the whole.
proof fn lemma_alt_exit(
    edges: Seq<Edge>,
    more: Seq<Edge>,
    rs: Seq<RegEx<Vec<u32>>>,
    ms: Seq<NFA>,
    m: NFA,
    base: int,
    i: int,
)
    requires
        alt_built(edges, more, rs, ms, m, base),
        0 <= i < rs.len(),
    ensures
        forall|e: Edge|
            #[trigger] more.contains(e) && inside(e.departure.0, part_lo(base, rs, i), part_lo(base, rs, i + 1))
                ==> edges.contains(e) || e == eps_edge(ms[i].accepted.0, m.accepted.0),
        !inside(m.accepted.0, part_lo(base, rs, i), part_lo(base, rs, i + 1)),
        !inside(m.start.0, part_lo(base, rs, i), part_lo(base, rs, i + 1)),
        fragment(edges, rs[i], ms[i], part_lo(base, rs, i), part_lo(base, rs, i + 1)),
        more.contains(eps_edge(m.start.0, ms[i].start.0)),
        more.contains(eps_edge(ms[i].accepted.0, m.accepted.0)),
        ms.len() == rs.len(),
        part_lo(base, rs, i + 1) <= m.start.0,
{
    reveal(alt_built);
    lemma_part_below(rs, base, i);
    assert(fragment(edges, rs[i], ms[i], part_lo(base, rs, i), part_lo(base, rs, i + 1)));
    assert(alt_edge(eps_edge(m.start.0, ms[i].start.0), m, ms[i]));
    assert(alt_edge(eps_edge(ms[i].accepted.0, m.accepted.0), m, ms[i]));
    assert forall|e: Edge|
        #[trigger] more.contains(e) && inside(
            e.departure.0,
            part_lo(base, rs, i),
            part_lo(base, rs, i + 1),
        ) implies edges.contains(e) || e == eps_edge(ms[i].accepted.0, m.accepted.0) by {
        if !edges.contains(e) {
            let j = choose|j: int| 0 <= j < ms.len() && alt_edge(e, m, #[trigger] ms[j]);
            assert(fragment(edges, rs[j], ms[j], part_lo(base, rs, j), part_lo(base, rs, j + 1)));
            assert(fragment(edges, rs[i], ms[i], part_lo(base, rs, i), part_lo(base, rs, i + 1)));
            assert(e.departure == ms[j].accepted);
            lemma_parts_apart(rs, base, i, j, e.departure.0);
        }
    }
}

/// An alternation matches what one of its alternatives matches.
pub proof fn lemma_matches_alt(v: Vec<RegEx<Vec<u32>>>, w: Seq<u32>, i: int)
    requires
        0 <= i < v@.len(),
        regex_matches(v@[i], w),
    ensures
        regex_matches(RegEx::Alt(v), w),
{
    assert(chosen(i));
}

/// What an alternation matches, one of its alternatives matches.
pub proof fn lemma_alt_matched(v: Vec<RegEx<Vec<u32>>>, w: Seq<u32>) -> (i: int)
    requires
        regex_matches(RegEx::Alt(v), w),
    ensures
        0 <= i < v@.len(),
        regex_matches(v@[i], w),
{
    choose|i: int| #[trigger] chosen(i) && 0 <= i < v@.len() && regex_matches(v@[i], w)
}

/// No transition departs from the accepting state of an alternation.
proof fn lemma_alt_sink(
    edges: Seq<Edge>,
    more: Seq<Edge>,
    rs: Seq<RegEx<Vec<u32>>>,
    ms: Seq<NFA>,
    m: NFA,
    base: int,
)
    requires
        alt_built(edges, more, rs, ms, m, base),
    ensures
        forall|x: Edge| #[trigger] more.contains(x) ==> x.departure.0 != m.accepted.0,
        forall|e: Edge| edges.contains(e) ==> more.contains(e),
        m.accepted.0 != m.start.0,
{
    reveal(alt_built);
    assert forall|x: Edge| #[trigger] more.contains(x) implies x.departure.0 != m.accepted.0 by {
        if !edges.contains(x) {
            let j = choose|j: int| 0 <= j < ms.len() && alt_edge(x, m, #[trigger] ms[j]);
            assert(fragment(edges, rs[j], ms[j], part_lo(base, rs, j), part_lo(base, rs, j + 1)));
            lemma_part_below(rs, base, j);
        }
    }
}

/// The first transition of a chain through an alternation leads to the
/// start of an alternative.
proof fn lemma_alt_enter(
    edges: Seq<Edge>,
    more: Seq<Edge>,
    rs: Seq<RegEx<Vec<u32>>>,
    ms: Seq<NFA>,
    m: NFA,
    base: int,
    e: Edge,
) -> (i: int)
    requires
        alt_built(edges, more, rs, ms, m, base),
        more.contains(e),
        e.departure.0 == m.start.0,
    ensures
        0 <= i < rs.len(),
        e == eps_edge(m.start.0, ms[i].start.0),
{
    reveal(alt_built);
    assert(!edges.contains(e));
    let i = choose|i: int| 0 <= i < ms.len() && alt_edge(e, m, #[trigger] ms[i]);
    assert(fragment(edges, rs[i], ms[i], part_lo(base, rs, i), part_lo(base, rs, i + 1)));
    lemma_part_below(rs, base, i);
    i
}

/// What the automaton of an alternation accepts, one of the alternatives
/// matches.
proof fn lemma_alt_sound(
    edges: Seq<Edge>,
    more: Seq<Edge>,
    rs: Seq<RegEx<Vec<u32>>>,
    ms: Seq<NFA>,
    m: NFA,
    base: int,
    w: Seq<u32>,
) -> (i: int)
    requires
        alt_built(edges, more, rs, ms, m, base),
        nfa_reaches(more, m.start.0, w, m.accepted.0),
    ensures
        0 <= i < rs.len(),
        regex_matches(rs[i], w),
{
    let s = m.start.0;
    let t = m.accepted.0;
    let walk = choose|walk: Seq<Edge>| #[trigger] is_walk(more, walk, s, t) && spelled(walk) == w;
    lemma_alt_sink(edges, more, rs, ms, m, base);
    lemma_first_step(more, walk, s, t);
    let i = lemma_alt_enter(edges, more, rs, ms, m, base, walk[0]);
    let rest = walk.skip(1);
    assert(spelled(rest) == w);
    lemma_alt_exit(edges, more, rs, ms, m, base, i);
    lemma_alt_sink(edges, more, rs, ms, m, base);
    let k = lemma_through(edges, more, rs[i], ms[i], part_lo(base, rs, i), part_lo(base, rs, i + 1), t, rest, t);
    let after = choose|after: Seq<Edge>| #[trigger] is_walk(more, after, t, t) && spelled(after) == w.skip(k);
    lemma_sink(more, after, t, t);
    assert(w.skip(k).len() == 0);
    assert(w.take(k) =~= w);
    i
}

/// What an alternative matches, the automaton of the alternation accepts.
proof fn lemma_alt_complete(
    edges: Seq<Edge>,
    more: Seq<Edge>,
    rs: Seq<RegEx<Vec<u32>>>,
    ms: Seq<NFA>,
    m: NFA,
    base: int,
    w: Seq<u32>,
    i: int,
)
    requires
        alt_built(edges, more, rs, ms, m, base),
        0 <= i < rs.len(),
        regex_matches(rs[i], w),
    ensures
        nfa_reaches(more, m.start.0, w, m.accepted.0),
{
    let s = m.start.0;
    let t = m.accepted.0;
    lemma_alt_exit(edges, more, rs, ms, m, base, i);
    assert(nfa_reaches(edges, ms[i].start.0, w, ms[i].accepted.0));
    lemma_alt_sink(edges, more, rs, ms, m, base);
    lemma_reaches_grows(edges, more, ms[i].start.0, w, ms[i].accepted.0);
    lemma_eps_step(more, s, ms[i].start.0);
    lemma_reaches_concat(more, s, Seq::empty(), ms[i].start.0, w, ms[i].accepted.0);
    assert(Seq::<u32>::empty() + w =~= w);
    lemma_reaches_then_eps(more, s, w, ms[i].accepted.0, t);
}

/// The automaton of an alternation accepts what one of the alternatives
/// matches.
proof fn lemma_alt_language(
    edges: Seq<Edge>,
    more: Seq<Edge>,
    v: Vec<RegEx<Vec<u32>>>,
    ms: Seq<NFA>,
    m: NFA,
    base: int,
)
    requires
        alt_built(edges, more, v@, ms, m, base),
    ensures
        forall|w: Seq<u32>| #[trigger] nfa_reaches(more, m.start.0, w, m.accepted.0) <==> regex_matches(RegEx::Alt(v), w),
{
    assert forall|w: Seq<u32>| #[trigger]
        nfa_reaches(more, m.start.0, w, m.accepted.0) <==> regex_matches(RegEx::Alt(v), w) by {
        if nfa_reaches(more, m.start.0, w, m.accepted.0) {
            let i = lemma_alt_sound(edges, more, v@, ms, m, base, w);
            lemma_matches_alt(v, w, i);
        }
        if regex_matches(RegEx::Alt(v), w) {
            let i = lemma_alt_matched(v, w);
            lemma_alt_complete(edges, more, v@, ms, m, base, w, i);
        }
    }
}


/// A string made of what part `i` matches and what the parts after it
/// match is made of what the parts from `i` on match.
pub proof fn lemma_matches_from_step(rs: Seq<RegEx<Vec<u32>>>, i: nat, w: Seq<u32>, k: int)
    requires
        i < rs.len(),
        0 <= k <= w.len(),
        regex_matches(rs[i as int], w.take(k)),
        matches_from(rs, i + 1, w.skip(k)),
    ensures
        matches_from(rs, i, w),
{
    assert(chosen(k));
}

/// Where a string that the parts from `i` on match is cut behind what part
/// `i` matches.
pub proof fn lemma_matches_from_split(rs: Seq<RegEx<Vec<u32>>>, i: nat, w: Seq<u32>) -> (k: int)
    requires
        i < rs.len(),
        matches_from(rs, i, w),
    ensures
        0 <= k <= w.len(),
        regex_matches(rs[i as int], w.take(k)),
        matches_from(rs, i + 1, w.skip(k)),
{
    choose|k: int|
        #[trigger] chosen(k) && 0 <= k <= w.len() && regex_matches(rs[i as int], w.take(k)) && matches_from(
            rs,
            i + 1,
            w.skip(k),
        )
}

/// What holds once a concatenation `m` was made of the automata `ms`.
#[verifier::opaque]
pub open spec fn concat_built(
    edges: Seq<Edge>,
    more: Seq<Edge>,
    rs: Seq<RegEx<Vec<u32>>>,
    ms: Seq<NFA>,
    m: NFA,
    base: int,
) -> bool {
    &&& parts_built(edges, rs, ms, base)
    &&& below(edges, part_lo(base, rs, rs.len() as int))
    &&& m.start.0 == part_lo(base, rs, rs.len() as int)
    &&& m.accepted.0 == m.start.0 + 1
    &&& forall|e: Edge|
        #![trigger more.contains(e)]
        #![trigger edges.contains(e)]
        more.contains(e) <==> (edges.contains(e) || exists|i: int|
            0 <= i <= ms.len() && #[trigger] concat_edge(e, m, ms, i))
}

/// In a concatenation, the only way out of a part leads from its accepting
/// state to the next part, or to the accepting state of the whole.
proof fn lemma_concat_exit(
    edges: Seq<Edge>,
    more: Seq<Edge>,
    rs: Seq<RegEx<Vec<u32>>>,
    ms: Seq<NFA>,
    m: NFA,
    base: int,
    i: int,
)
    requires
        concat_built(edges, more, rs, ms, m, base),
        0 <= i < rs.len(),
    ensures
        forall|e: Edge|
            #[trigger] more.contains(e) && inside(e.departure.0, part_lo(base, rs, i), part_lo(base, rs, i + 1))
                ==> edges.contains(e) || e == eps_edge(ms[i].accepted.0, link_to(m, ms, i + 1).0),
        !inside(link_to(m, ms, i + 1).0, part_lo(base, rs, i), part_lo(base, rs, i + 1)),
        !inside(m.accepted.0, part_lo(base, rs, i), part_lo(base, rs, i + 1)),
        more.contains(eps_edge(ms[i].accepted.0, link_to(m, ms, i + 1).0)),
        fragment(edges, rs[i], ms[i], part_lo(base, rs, i), part_lo(base, rs, i + 1)),
        ms.len() == rs.len(),
{
    reveal(concat_built);
    lemma_part_below(rs, base, i);
    assert(fragment(edges, rs[i], ms[i], part_lo(base, rs, i), part_lo(base, rs, i + 1)));
    assert forall|e: Edge|
        #[trigger] more.contains(e) && inside(
            e.departure.0,
            part_lo(base, rs, i),
            part_lo(base, rs, i + 1),
        ) implies edges.contains(e) || e == eps_edge(ms[i].accepted.0, link_to(m, ms, i + 1).0) by {
        if !edges.contains(e) {
            let j = choose|j: int| 0 <= j <= ms.len() && #[trigger] concat_edge(e, m, ms, j);
            if j > 0 {
                assert(fragment(
                    edges,
                    rs[j - 1],
                    ms[j - 1],
                    part_lo(base, rs, j - 1),
                    part_lo(base, rs, j - 1 + 1),
                ));
                lemma_parts_apart(rs, base, i, j - 1, e.departure.0);
            }
        }
    }
    if i + 1 < rs.len() {
        assert(fragment(edges, rs[i + 1], ms[i + 1], part_lo(base, rs, i + 1), part_lo(base, rs, i + 1 + 1)));
        if inside(ms[i + 1].start.0, part_lo(base, rs, i), part_lo(base, rs, i + 1)) {
            lemma_parts_apart(rs, base, i, i + 1, ms[i + 1].start.0);
        }
    }
    assert(concat_edge(eps_edge(ms[i].accepted.0, link_to(m, ms, i + 1).0), m, ms, i + 1));
}

/// No transition departs from the accepting state of a concatenation, and
/// the only one that departs from its start is the first link.
proof fn lemma_concat_ends(
    edges: Seq<Edge>,
    more: Seq<Edge>,
    rs: Seq<RegEx<Vec<u32>>>,
    ms: Seq<NFA>,
    m: NFA,
    base: int,
)
    requires
        concat_built(edges, more, rs, ms, m, base),
    ensures
        forall|x: Edge| #[trigger] more.contains(x) ==> x.departure.0 != m.accepted.0,
        forall|x: Edge|
            #[trigger] more.contains(x) && x.departure.0 == m.start.0 ==> x == eps_edge(
                m.start.0,
                link_to(m, ms, 0).0,
            ),
        more.contains(eps_edge(m.start.0, link_to(m, ms, 0).0)),
        forall|e: Edge| edges.contains(e) ==> more.contains(e),
        ms.len() == rs.len(),
        m.accepted.0 != m.start.0,
{
    reveal(concat_built);
    assert forall|x: Edge| #[trigger] more.contains(x) implies x.departure.0 != m.accepted.0 && (x.departure.0
        == m.start.0 ==> x == eps_edge(m.start.0, link_to(m, ms, 0).0)) by {
        if !edges.contains(x) {
            let j = choose|j: int| 0 <= j <= ms.len() && #[trigger] concat_edge(x, m, ms, j);
            if j > 0 {
                assert(fragment(
                    edges,
                    rs[j - 1],
                    ms[j - 1],
                    part_lo(base, rs, j - 1),
                    part_lo(base, rs, j - 1 + 1),
                ));
                lemma_part_below(rs, base, j - 1);
            }
        }
    }
    assert(concat_edge(eps_edge(m.start.0, link_to(m, ms, 0).0), m, ms, 0));
}

/// What leads from the start of part `i` of a concatenation to the
/// accepting state of the whole, the parts from `i` on match.
proof fn lemma_concat_sound(
    edges: Seq<Edge>,
    more: Seq<Edge>,
    rs: Seq<RegEx<Vec<u32>>>,
    ms: Seq<NFA>,
    m: NFA,
    base: int,
    i: int,
    w: Seq<u32>,
)
    requires
        concat_built(edges, more, rs, ms, m, base),
        0 <= i < rs.len(),
        nfa_reaches(more, ms[i].start.0, w, m.accepted.0),
    ensures
        matches_from(rs, i as nat, w),
    decreases rs.len() - i,
{
    let t = m.accepted.0;
    let walk = choose|walk: Seq<Edge>| #[trigger] is_walk(more, walk, ms[i].start.0, t) && spelled(walk) == w;
    lemma_concat_exit(edges, more, rs, ms, m, base, i);
    let next = link_to(m, ms, i + 1).0;
    let k = lemma_through(edges, more, rs[i], ms[i], part_lo(base, rs, i), part_lo(base, rs, i + 1), next, walk, t);
    if i + 1 == rs.len() {
        let after = choose|after: Seq<Edge>| #[trigger] is_walk(more, after, t, t) && spelled(after) == w.skip(k);
        lemma_concat_ends(edges, more, rs, ms, m, base);
        lemma_sink(more, after, t, t);
        assert(matches_from(rs, (i + 1) as nat, w.skip(k)));
    } else {
        lemma_concat_sound(edges, more, rs, ms, m, base, i + 1, w.skip(k));
    }
    lemma_matches_from_step(rs, i as nat, w, k);
}

/// What the parts of a concatenation from `i` on match leads from link `i`
/// to the accepting state of the whole.
proof fn lemma_concat_complete(
    edges: Seq<Edge>,
    more: Seq<Edge>,
    rs: Seq<RegEx<Vec<u32>>>,
    ms: Seq<NFA>,
    m: NFA,
    base: int,
    i: int,
    w: Seq<u32>,
)
    requires
        concat_built(edges, more, rs, ms, m, base),
        0 <= i <= rs.len(),
        matches_from(rs, i as nat, w),
    ensures
        nfa_reaches(more, link_to(m, ms, i).0, w, m.accepted.0),
    decreases rs.len() - i,
{
    let t = m.accepted.0;
    lemma_concat_ends(edges, more, rs, ms, m, base);
    if i == rs.len() {
        lemma_reaches_self(more, t);
        assert(w =~= Seq::<u32>::empty());
    } else {
        let k = lemma_matches_from_split(rs, i as nat, w);
        lemma_concat_exit(edges, more, rs, ms, m, base, i);
        assert(nfa_reaches(edges, ms[i].start.0, w.take(k), ms[i].accepted.0));
        lemma_reaches_grows(edges, more, ms[i].start.0, w.take(k), ms[i].accepted.0);
        let next = link_to(m, ms, i + 1).0;
        lemma_reaches_then_eps(more, ms[i].start.0, w.take(k), ms[i].accepted.0, next);
        lemma_concat_complete(edges, more, rs, ms, m, base, i + 1, w.skip(k));
        lemma_reaches_concat(more, ms[i].start.0, w.take(k), next, w.skip(k), t);
        assert(w.take(k) + w.skip(k) =~= w);
    }
}

/// What the automaton of a concatenation accepts, its parts match one
/// after the other.
proof fn lemma_concat_whole_sound(
    edges: Seq<Edge>,
    more: Seq<Edge>,
    rs: Seq<RegEx<Vec<u32>>>,
    ms: Seq<NFA>,
    m: NFA,
    base: int,
    w: Seq<u32>,
)
    requires
        concat_built(edges, more, rs, ms, m, base),
        nfa_reaches(more, m.start.0, w, m.accepted.0),
    ensures
        matches_from(rs, 0, w),
{
    let s = m.start.0;
    let t = m.accepted.0;
    let walk = choose|walk: Seq<Edge>| #[trigger] is_walk(more, walk, s, t) && spelled(walk) == w;
    lemma_concat_ends(edges, more, rs, ms, m, base);
    lemma_first_step(more, walk, s, t);
    let rest = walk.skip(1);
    assert(walk[0] == eps_edge(s, link_to(m, ms, 0).0));
    assert(spelled(rest) == w);
    if rs.len() == 0 {
        lemma_sink(more, rest, t, t);
        assert(w.len() == 0);
    } else {
        assert(nfa_reaches(more, ms[0].start.0, w, t));
        lemma_concat_sound(edges, more, rs, ms, m, base, 0, w);
    }
}

/// The automaton of a concatenation accepts what its parts match one after
/// the other.
proof fn lemma_concat_language(
    edges: Seq<Edge>,
    more: Seq<Edge>,
    v: Vec<RegEx<Vec<u32>>>,
    ms: Seq<NFA>,
    m: NFA,
    base: int,
)
    requires
        concat_built(edges, more, v@, ms, m, base),
    ensures
        forall|w: Seq<u32>|
            #[trigger] nfa_reaches(more, m.start.0, w, m.accepted.0) <==> regex_matches(RegEx::Concat(v), w),
{
    assert forall|w: Seq<u32>| #[trigger]
        nfa_reaches(more, m.start.0, w, m.accepted.0) <==> regex_matches(RegEx::Concat(v), w) by {
        assert(regex_matches(RegEx::Concat(v), w) == matches_from(v@, 0, w));
        if nfa_reaches(more, m.start.0, w, m.accepted.0) {
            lemma_concat_whole_sound(edges, more, v@, ms, m, base, w);
        }
        if matches_from(v@, 0, w) {
            lemma_concat_complete(edges, more, v@, ms, m, base, 0, w);
            lemma_concat_ends(edges, more, v@, ms, m, base);
            lemma_eps_step(more, m.start.0, link_to(m, ms, 0).0);
            lemma_reaches_concat(more, m.start.0, Seq::empty(), link_to(m, ms, 0).0, w, m.accepted.0);
            assert(Seq::<u32>::empty() + w =~= w);
        }
    }
}

/// A string made of what the expression matches and of `n` more such
/// strings is made of `n + 1` of them.
pub proof fn lemma_repeats_step(x: RegEx<Vec<u32>>, n: nat, w: Seq<u32>, k: int)
    requires
        0 <= k <= w.len(),
        regex_matches(x, w.take(k)),
        repeats(x, n, w.skip(k)),
    ensures
        repeats(x, n + 1, w),
{
    assert(chosen(k));
}

/// Where a string made of `n` strings that the expression matches is cut
/// behind the first of them.
pub proof fn lemma_repeats_split(x: RegEx<Vec<u32>>, n: nat, w: Seq<u32>) -> (k: int)
    requires
        n >= 1,
        repeats(x, n, w),
    ensures
        0 <= k <= w.len(),
        regex_matches(x, w.take(k)),
        repeats(x, (n - 1) as nat, w.skip(k)),
{
    choose|k: int|
        #[trigger] chosen(k) && 0 <= k <= w.len() && regex_matches(x, w.take(k)) && repeats(
            x,
            (n - 1) as nat,
            w.skip(k),
        )
}

/// What the expression matches is one string that it matches.
pub proof fn lemma_repeats_once(x: RegEx<Vec<u32>>, w: Seq<u32>)
    requires
        regex_matches(x, w),
    ensures
        repeats(x, 1, w),
{
    assert(w.take(w.len() as int) =~= w);
    assert(w.skip(w.len() as int) =~= Seq::<u32>::empty());
    assert(repeats(x, 0, w.skip(w.len() as int)));
    lemma_repeats_step(x, 0, w, w.len() as int);
}

/// The way back from the accepting state of an automaton to its start.
pub open spec fn back_edge(m: NFA) -> Edge {
    Edge { departure: m.accepted, destination: m.start, input: NFAInput(None) }
}

/// What holds once the way back was added to the automaton `m` of `x`.
pub open spec fn some_built(edges: Seq<Edge>, more: Seq<Edge>, x: RegEx<Vec<u32>>, m: NFA, lo: int, hi: int) -> bool {
    &&& fragment(edges, x, m, lo, hi)
    &&& forall|e: Edge|
        #![trigger more.contains(e)]
        #![trigger edges.contains(e)]
        more.contains(e) <==> (edges.contains(e) || e == back_edge(m))
}

/// The first transition of a chain, from place `i` on, that is none of
/// `edges`; the length of the chain if there is none.
proof fn lemma_first_other(edges: Seq<Edge>, walk: Seq<Edge>, i: int) -> (k: int)
    requires
        0 <= i <= walk.len(),
        forall|j: int| 0 <= j < i ==> edges.contains(#[trigger] walk[j]),
    ensures
        i <= k <= walk.len(),
        forall|j: int| 0 <= j < k ==> edges.contains(#[trigger] walk[j]),
        k < walk.len() ==> !edges.contains(walk[k]),
    decreases walk.len() - i,
{
    if i == walk.len() || !edges.contains(walk[i]) {
        i
    } else {
        lemma_first_other(edges, walk, i + 1)
    }
}

/// What leads from the start of a repeated automaton to its accepting
/// state is made of strings that the expression matches.
proof fn lemma_some_sound(
    edges: Seq<Edge>,
    more: Seq<Edge>,
    x: RegEx<Vec<u32>>,
    m: NFA,
    lo: int,
    hi: int,
    walk: Seq<Edge>,
) -> (n: nat)
    requires
        some_built(edges, more, x, m, lo, hi),
        is_walk(more, walk, m.start.0, m.accepted.0),
    ensures
        n >= 1,
        repeats(x, n, spelled(walk)),
    decreases walk.len(),
{
    let s = m.start.0;
    let t = m.accepted.0;
    let w = spelled(walk);
    let k = lemma_first_other(edges, walk, 0);
    let mid = lemma_walk_split(more, walk, s, t, k);
    let prefix = walk.take(k);
    assert forall|j: int| 0 <= j < prefix.len() implies edges.contains(#[trigger] prefix[j]) by {
        assert(prefix[j] == walk[j]);
    }
    lemma_walk_among(more, edges, prefix, s, mid);
    if k == walk.len() {
        assert(prefix =~= walk);
        assert(nfa_reaches(edges, s, w, t));
        lemma_repeats_once(x, w);
        1
    } else {
        assert(more.contains(walk[k]));
        assert(walk[k] == back_edge(m));
        assert(nfa_reaches(edges, s, spelled(prefix), t));
        let rest = walk.skip(k);
        assert(rest[0] == walk[k]);
        lemma_first_step(more, rest, mid, t);
        let after = rest.skip(1);
        let n = lemma_some_sound(edges, more, x, m, lo, hi, after);
        let w1 = spelled(prefix);
        let w2 = spelled(after);
        assert(w =~= w1 + w2);
        assert(w.take(w1.len() as int) =~= w1);
        assert(w.skip(w1.len() as int) =~= w2);
        lemma_repeats_step(x, n, w, w1.len() as int);
        n + 1
    }
}

/// Strings that the expression matches, one after the other, lead from the
/// start of the repeated automaton to its accepting state.
proof fn lemma_some_complete(
    edges: Seq<Edge>,
    more: Seq<Edge>,
    x: RegEx<Vec<u32>>,
    m: NFA,
    lo: int,
    hi: int,
    n: nat,
    w: Seq<u32>,
)
    requires
        some_built(edges, more, x, m, lo, hi),
        n >= 1,
        repeats(x, n, w),
    ensures
        nfa_reaches(more, m.start.0, w, m.accepted.0),
    decreases n,
{
    let s = m.start.0;
    let t = m.accepted.0;
    let k = lemma_repeats_split(x, n, w);
    assert(nfa_reaches(edges, s, w.take(k), t));
    lemma_reaches_grows(edges, more, s, w.take(k), t);
    if n == 1 {
        assert(w.take(k) =~= w);
    } else {
        assert(more.contains(back_edge(m)));
        assert(back_edge(m) == eps_edge(t, s));
        lemma_reaches_then_eps(more, s, w.take(k), t, s);
        lemma_some_complete(edges, more, x, m, lo, hi, (n - 1) as nat, w.skip(k));
        lemma_reaches_concat(more, s, w.take(k), s, w.skip(k), t);
        assert(w.take(k) + w.skip(k) =~= w);
    }
}

/// The automaton of a repetition accepts what is made of one string or
/// more that the repeated expression matches.
pub proof fn lemma_some(
    edges: Seq<Edge>,
    more: Seq<Edge>,
    x: Box<RegEx<Vec<u32>>>,
    m: NFA,
    lo: int,
    hi: int,
)
    requires
        some_built(edges, more, *x, m, lo, hi),
    ensures
        fragment(more, RegEx::OneOrMore(x), m, lo, hi),
        added_above(edges, more, lo),
{
    assert forall|e: Edge| #[trigger] more.contains(e) implies (inside(e.departure.0, lo, hi) <==> inside(
        e.destination.0,
        lo,
        hi,
    )) by {
        if edges.contains(e) {
        }
    }
    assert forall|w: Seq<u32>| #[trigger]
        nfa_reaches(more, m.start.0, w, m.accepted.0) <==> regex_matches(RegEx::OneOrMore(x), w) by {
        if nfa_reaches(more, m.start.0, w, m.accepted.0) {
            let walk = choose|walk: Seq<Edge>|
                #[trigger] is_walk(more, walk, m.start.0, m.accepted.0) && spelled(walk) == w;
            let n = lemma_some_sound(edges, more, *x, m, lo, hi, walk);
            assert(chosen(n as int));
        }
        if regex_matches(RegEx::OneOrMore(x), w) {
            let n = choose|n: int| #[trigger] chosen(n) && n >= 1 && repeats(*x, n as nat, w);
            lemma_some_complete(edges, more, *x, m, lo, hi, n as nat, w);
        }
    }
}

/// The automaton `r` that takes the automaton `sub` of `x` or nothing
/// accepts the empty string and what `x` matches.
pub proof fn lemma_optional(
    edges: Seq<Edge>,
    more: Seq<Edge>,
    x: Box<RegEx<Vec<u32>>>,
    sub: NFA,
    r: NFA,
    lo: int,
    hi: int,
)
    requires
        fragment(edges, *x, sub, lo, hi),
        below(edges, hi),
        r.start.0 == hi,
        r.accepted.0 == hi + 1,
        forall|e: Edge|
            #![trigger more.contains(e)]
            #![trigger edges.contains(e)]
            more.contains(e) <==> (edges.contains(e) || e == eps_edge(r.start.0, r.accepted.0) || e == eps_edge(
                r.start.0,
                sub.start.0,
            ) || e == eps_edge(sub.accepted.0, r.accepted.0)),
    ensures
        fragment(more, RegEx::Optional(x), r, lo, hi + 2),
        added_above(edges, more, lo),
{
    let s = r.start.0;
    let t = r.accepted.0;
    assert forall|e: Edge| #[trigger] more.contains(e) implies e.departure.0 != t && (inside(
        e.departure.0,
        lo,
        hi + 2,
    ) <==> inside(e.destination.0, lo, hi + 2)) by {
        if edges.contains(e) {
        }
    }
    assert forall|w: Seq<u32>| #[trigger] nfa_reaches(more, s, w, t) <==> regex_matches(RegEx::Optional(x), w) by {
        if nfa_reaches(more, s, w, t) {
            let walk = choose|walk: Seq<Edge>| #[trigger] is_walk(more, walk, s, t) && spelled(walk) == w;
            lemma_first_step(more, walk, s, t);
            let e = walk[0];
            let rest = walk.skip(1);
            assert(!edges.contains(e));
            if e == eps_edge(s, t) {
                lemma_sink(more, rest, t, t);
                assert(w.len() == 0);
            } else {
                assert(e == eps_edge(s, sub.start.0));
                assert(spelled(rest) == w);
                let k = lemma_through(edges, more, *x, sub, lo, hi, t, rest, t);
                let after = choose|after: Seq<Edge>|
                    #[trigger] is_walk(more, after, t, t) && spelled(after) == w.skip(k);
                lemma_sink(more, after, t, t);
                assert(w.skip(k).len() == 0);
                assert(w.take(k) =~= w);
            }
        }
        if regex_matches(RegEx::Optional(x), w) {
            if w.len() == 0 {
                lemma_eps_step(more, s, t);
                assert(w =~= Seq::<u32>::empty());
            } else {
                assert(nfa_reaches(edges, sub.start.0, w, sub.accepted.0));
                lemma_reaches_grows(edges, more, sub.start.0, w, sub.accepted.0);
                lemma_eps_step(more, s, sub.start.0);
                lemma_reaches_concat(more, s, Seq::empty(), sub.start.0, w, sub.accepted.0);
                assert(Seq::<u32>::empty() + w =~= w);
                lemma_reaches_then_eps(more, s, w, sub.accepted.0, t);
            }
        }
    }
}

/// The transitions that tie the alternatives together run among the states
/// of the alternation.
proof fn lemma_alt_glue(
    edges: Seq<Edge>,
    more: Seq<Edge>,
    rs: Seq<RegEx<Vec<u32>>>,
    ms: Seq<NFA>,
    m: NFA,
    base: int,
)
    requires
        alt_built(edges, more, rs, ms, m, base),
    ensures
        base <= m.start.0,
        m.accepted.0 == m.start.0 + 1,
        below(edges, m.start.0 as int),
        forall|e: Edge|
            #[trigger] more.contains(e) && !edges.contains(e) ==> inside(e.departure.0, base, m.start.0 + 2)
                && inside(e.destination.0, base, m.start.0 + 2),
{
    reveal(alt_built);
    assert forall|e: Edge| #[trigger] more.contains(e) && !edges.contains(e) implies inside(
        e.departure.0,
        base,
        m.start.0 + 2,
    ) && inside(e.destination.0, base, m.start.0 + 2) by {
        let j = choose|j: int| 0 <= j < ms.len() && alt_edge(e, m, #[trigger] ms[j]);
        assert(fragment(edges, rs[j], ms[j], part_lo(base, rs, j), part_lo(base, rs, j + 1)));
        lemma_part_below(rs, base, j);
    }
}

/// The automaton that was made of the automata of the alternatives is the
/// automaton of the alternation.
pub proof fn lemma_alt(
    before: Seq<Edge>,
    edges: Seq<Edge>,
    more: Seq<Edge>,
    v: Vec<RegEx<Vec<u32>>>,
    ms: Seq<NFA>,
    m: NFA,
    base: int,
)
    requires
        below(before, base),
        added_above(before, edges, base),
        forall|e: Edge| before.contains(e) ==> edges.contains(e),
        alt_built(edges, more, v@, ms, m, base),
    ensures
        fragment(more, RegEx::Alt(v), m, base, m.start.0 + 2),
        added_above(before, more, base),
{
    lemma_alt_glue(edges, more, v@, ms, m, base);
    lemma_alt_sink(edges, more, v@, ms, m, base);
    lemma_glued(before, edges, more, base, m.start.0 as int, m.start.0 + 2);
    lemma_alt_language(edges, more, v, ms, m, base);
}

/// The links of a concatenation run among its states.
proof fn lemma_concat_glue(
    edges: Seq<Edge>,
    more: Seq<Edge>,
    rs: Seq<RegEx<Vec<u32>>>,
    ms: Seq<NFA>,
    m: NFA,
    base: int,
)
    requires
        concat_built(edges, more, rs, ms, m, base),
    ensures
        base <= m.start.0,
        m.accepted.0 == m.start.0 + 1,
        below(edges, m.start.0 as int),
        forall|e: Edge|
            #[trigger] more.contains(e) && !edges.contains(e) ==> inside(e.departure.0, base, m.start.0 + 2)
                && inside(e.destination.0, base, m.start.0 + 2),
{
    reveal(concat_built);
    assert forall|e: Edge| #[trigger] more.contains(e) && !edges.contains(e) implies inside(
        e.departure.0,
        base,
        m.start.0 + 2,
    ) && inside(e.destination.0, base, m.start.0 + 2) by {
        let j = choose|j: int| 0 <= j <= ms.len() && #[trigger] concat_edge(e, m, ms, j);
        if j > 0 {
            assert(fragment(edges, rs[j - 1], ms[j - 1], part_lo(base, rs, j - 1), part_lo(base, rs, j - 1 + 1)));
            lemma_part_below(rs, base, j - 1);
        }
        if j < ms.len() {
            assert(fragment(edges, rs[j], ms[j], part_lo(base, rs, j), part_lo(base, rs, j + 1)));
            lemma_part_below(rs, base, j);
        }
    }
}

/// The automaton that was made of the automata of the parts is the
/// automaton of the concatenation.
pub proof fn lemma_concat(
    before: Seq<Edge>,
    edges: Seq<Edge>,
    more: Seq<Edge>,
    v: Vec<RegEx<Vec<u32>>>,
    ms: Seq<NFA>,
    m: NFA,
    base: int,
)
    requires
        below(before, base),
        added_above(before, edges, base),
        forall|e: Edge| before.contains(e) ==> edges.contains(e),
        concat_built(edges, more, v@, ms, m, base),
    ensures
        fragment(more, RegEx::Concat(v), m, base, m.start.0 + 2),
        added_above(before, more, base),
{
    lemma_concat_glue(edges, more, v@, ms, m, base);
    lemma_concat_ends(edges, more, v@, ms, m, base);
    lemma_glued(before, edges, more, base, m.start.0 as int, m.start.0 + 2);
    lemma_concat_language(edges, more, v, ms, m, base);
}

/// The first transition of a chain, from place `i` on, that ends outside a
/// stretch of states; the length of the chain if there is none.
proof fn lemma_first_outside(walk: Seq<Edge>, lo: int, hi: int, i: int) -> (k: int)
    requires
        0 <= i <= walk.len(),
        forall|j: int| 0 <= j < i ==> inside((#[trigger] walk[j]).destination.0, lo, hi),
    ensures
        i <= k <= walk.len(),
        forall|j: int| 0 <= j < k ==> inside((#[trigger] walk[j]).destination.0, lo, hi),
        k < walk.len() ==> !inside(walk[k].destination.0, lo, hi),
    decreases walk.len() - i,
{
    if i == walk.len() || !inside(walk[i].destination.0, lo, hi) {
        i
    } else {
        lemma_first_outside(walk, lo, hi, i + 1)
    }
}

/// Among the transitions of an alternation, the accepting state of an
/// alternative is reached from the start of the whole on what that
/// alternative matches, and on nothing else.
pub proof fn lemma_alt_rule(
    edges: Seq<Edge>,
    more: Seq<Edge>,
    rs: Seq<RegEx<Vec<u32>>>,
    ms: Seq<NFA>,
    m: NFA,
    base: int,
    k: int,
    w: Seq<u32>,
)
    requires
        alt_built(edges, more, rs, ms, m, base),
        0 <= k < rs.len(),
    ensures
        nfa_reaches(more, m.start.0, w, ms[k].accepted.0) <==> regex_matches(rs[k], w),
{
    let s = m.start.0;
    let t = m.accepted.0;
    let target = ms[k].accepted.0;
    lemma_alt_exit(edges, more, rs, ms, m, base, k);
    lemma_alt_sink(edges, more, rs, ms, m, base);
    if regex_matches(rs[k], w) {
        assert(nfa_reaches(edges, ms[k].start.0, w, target));
        lemma_reaches_grows(edges, more, ms[k].start.0, w, target);
        lemma_eps_step(more, s, ms[k].start.0);
        lemma_reaches_concat(more, s, Seq::empty(), ms[k].start.0, w, target);
        assert(Seq::<u32>::empty() + w =~= w);
    }
    if nfa_reaches(more, s, w, target) {
        let walk = choose|walk: Seq<Edge>| #[trigger] is_walk(more, walk, s, target) && spelled(walk) == w;
        lemma_first_step(more, walk, s, target);
        let j = lemma_alt_enter(edges, more, rs, ms, m, base, walk[0]);
        lemma_alt_exit(edges, more, rs, ms, m, base, j);
        let lo = part_lo(base, rs, j);
        let hi = part_lo(base, rs, j + 1);
        let rest = walk.skip(1);
        assert(spelled(rest) == w);
        let n = lemma_first_outside(rest, lo, hi, 0);
        assert forall|i: int| 0 <= i <= n && i < rest.len() implies inside(
            (#[trigger] rest[i]).departure.0,
            lo,
            hi,
        ) by {
            if i > 0 {
                assert(rest[i - 1].destination.0 == rest[i].departure.0);
            }
        }
        if n < rest.len() {
            assert(more.contains(rest[n]));
            assert(rest[n] == eps_edge(ms[j].accepted.0, t)) by {
                if edges.contains(rest[n]) {
                }
            }
            let mid = lemma_walk_split(more, rest, ms[j].start.0, target, n + 1);
            lemma_sink(more, rest.skip(n + 1), t, target);
            assert(false);
        }
        assert forall|i: int| 0 <= i < rest.len() implies edges.contains(#[trigger] rest[i]) by {
            assert(more.contains(rest[i]));
            assert(inside(rest[i].departure.0, lo, hi) && inside(rest[i].destination.0, lo, hi));
            lemma_alt_inner(edges, more, rs, ms, m, base, rest[i]);
        }
        lemma_walk_among(more, edges, rest, ms[j].start.0, target);
        assert(inside(target, lo, hi)) by {
            if rest.len() > 0 {
                assert(rest[rest.len() - 1].destination.0 == target);
            }
        }
        lemma_parts_apart(rs, base, j, k, target);
        assert(nfa_reaches(edges, ms[k].start.0, w, target));
    }
}

/// A transition of an alternation that begins below the start of the whole
/// and ends below its accepting state is a transition of an alternative.
proof fn lemma_alt_inner(
    edges: Seq<Edge>,
    more: Seq<Edge>,
    rs: Seq<RegEx<Vec<u32>>>,
    ms: Seq<NFA>,
    m: NFA,
    base: int,
    e: Edge,
)
    requires
        alt_built(edges, more, rs, ms, m, base),
        more.contains(e),
        e.departure.0 < m.start.0,
        e.destination.0 < m.start.0,
    ensures
        edges.contains(e),
{
    reveal(alt_built);
    if !edges.contains(e) {
        let j = choose|j: int| 0 <= j < ms.len() && alt_edge(e, m, #[trigger] ms[j]);
    }
}


/// Every block that an atom of the expression names is below `n`.
pub open spec fn atoms_below(r: RegEx<Vec<u32>>, n: int) -> bool
    decreases r,
{
    match r {
        RegEx::Atom(v) => forall|k: int| 0 <= k < v@.len() ==> (#[trigger] v@[k]) < n,
        RegEx::Alt(rs) => forall|i: int| 0 <= i < rs@.len() ==> atoms_below(#[trigger] rs@[i], n),
        RegEx::Concat(rs) => forall|i: int| 0 <= i < rs@.len() ==> atoms_below(#[trigger] rs@[i], n),
        RegEx::OneOrMore(x) => atoms_below(*x, n),
        RegEx::Optional(x) => atoms_below(*x, n),
    }
}

/// The string is made of blocks below `n`.
pub open spec fn blocks_below(w: Seq<u32>, n: int) -> bool {
    forall|k: int| 0 <= k < w.len() ==> (#[trigger] w[k]) < n
}

/// A string that an expression matches is made of blocks that its atoms
/// name.
pub proof fn lemma_matched_below(r: RegEx<Vec<u32>>, w: Seq<u32>, n: int)
    requires
        regex_matches(r, w),
        atoms_below(r, n),
    ensures
        blocks_below(w, n),
    decreases r, 0nat, 0nat,
{
    match r {
        RegEx::Atom(v) => {
            let i = choose|i: int| 0 <= i < v@.len() && v@[i] == w[0];
            assert(v@[i] < n);
        },
        RegEx::Alt(rs) => {
            let i = choose|i: int| #[trigger] chosen(i) && 0 <= i < rs@.len() && regex_matches(rs@[i], w);
            lemma_matched_below(rs@[i], w, n);
        },
        RegEx::Concat(rs) => {
            lemma_from_below(rs@, 0, w, n);
        },
        RegEx::OneOrMore(x) => {
            let m = choose|m: int| #[trigger] chosen(m) && m >= 1 && repeats(*x, m as nat, w);
            lemma_repeats_below(*x, m as nat, w, n);
        },
        RegEx::Optional(x) => {
            if w.len() > 0 {
                lemma_matched_below(*x, w, n);
            }
        },
    }
}

/// A string that expressions match one after the other is made of blocks
/// that their atoms name.
pub proof fn lemma_from_below(rs: Seq<RegEx<Vec<u32>>>, i: nat, w: Seq<u32>, n: int)
    requires
        matches_from(rs, i, w),
        forall|j: int| 0 <= j < rs.len() ==> atoms_below(#[trigger] rs[j], n),
    ensures
        blocks_below(w, n),
    decreases rs, rs.len() - i, 0nat,
{
    if i < rs.len() {
        let k = choose|k: int|
            #[trigger] chosen(k) && 0 <= k <= w.len() && regex_matches(rs[i as int], w.take(k)) && matches_from(
                rs,
                i + 1,
                w.skip(k),
            );
        lemma_matched_below(rs[i as int], w.take(k), n);
        lemma_from_below(rs, i + 1, w.skip(k), n);
        assert forall|j: int| 0 <= j < w.len() implies (#[trigger] w[j]) < n by {
            if j < k {
                assert(w.take(k)[j] == w[j]);
            } else {
                assert(w.skip(k)[j - k] == w[j]);
            }
        }
    }
}

/// A string that is made of strings that an expression matches is made of
/// blocks that its atoms name.
pub proof fn lemma_repeats_below(x: RegEx<Vec<u32>>, m: nat, w: Seq<u32>, n: int)
    requires
        repeats(x, m, w),
        atoms_below(x, n),
    ensures
        blocks_below(w, n),
    decreases x, m + 1, 0nat,
{
    if m > 0 {
        let k = choose|k: int|
            #[trigger] chosen(k) && 0 <= k <= w.len() && regex_matches(x, w.take(k)) && repeats(
                x,
                (m - 1) as nat,
                w.skip(k),
            );
        lemma_matched_below(x, w.take(k), n);
        lemma_repeats_below(x, (m - 1) as nat, w.skip(k), n);
        assert forall|j: int| 0 <= j < w.len() implies (#[trigger] w[j]) < n by {
            if j < k {
                assert(w.take(k)[j] == w[j]);
            } else {
                assert(w.skip(k)[j - k] == w[j]);
            }
        }
    }
}

} // verus!
