//! The automaton of a regular expression, written down: which states are
//! its start and its accepting state, and which transitions it is made of.

use vstd::prelude::*;
use crate::rlex::ast::RegEx;
use crate::rlex::automata::builder::{
    alt_edge,
    concat_edge,
    edges_sorted,
    states_needed,
    sum_needed,
    Edge,
    NFAInput,
    NFAState,
    NFA,
};
use crate::rlex::automata::language::{eps_edge, nfa_reaches, sym_edge};
use crate::rlex::automata::thompson::lemma_reaches_grows;
use crate::rlex::automata::thompson::part_lo;

verus! {

/// The start and the accepting state of the automaton of `r` whose first
/// state is `base`: the two states made last, but for a repetition, which
/// has those of what it repeats.
pub open spec fn ends_of(r: RegEx<Vec<u32>>, base: int) -> NFA
    decreases r,
{
    match r {
        RegEx::OneOrMore(x) => ends_of(*x, base),
        _ => NFA {
            start: NFAState((base + states_needed(r) - 2) as u32),
            accepted: NFAState((base + states_needed(r) - 1) as u32),
        },
    }
}

/// The start and the accepting state of part `i` of the expressions `rs`,
/// whose automata are built one after the other from state `base` on.
pub open spec fn part_ends(rs: Seq<RegEx<Vec<u32>>>, base: int, i: int) -> NFA {
    ends_of(rs[i], part_lo(base, rs, i))
}

/// The transitions of the automaton of `r` whose first state is `base`.
pub open spec fn arcs_of(r: RegEx<Vec<u32>>, base: int) -> Seq<Edge>
    decreases r, 0nat,
{
    match r {
        RegEx::Atom(v) => Seq::new(v@.len(), |i: int| sym_edge(base as u32, v@[i], (base + 1) as u32)),
        RegEx::Alt(rs) => parts_arcs(rs@, base, rs@.len()) + alt_links(rs@, base),
        RegEx::Concat(rs) => parts_arcs(rs@, base, rs@.len()) + concat_links(rs@, base),
        RegEx::OneOrMore(x) => arcs_of(*x, base).push(
            eps_edge(ends_of(*x, base).accepted.0, ends_of(*x, base).start.0),
        ),
        RegEx::Optional(x) => arcs_of(*x, base) + optional_links(*x, base),
    }
}

/// The transitions of the automata of the first `n` of the expressions
/// `rs`, built one after the other from state `base` on.
pub open spec fn parts_arcs(rs: Seq<RegEx<Vec<u32>>>, base: int, n: nat) -> Seq<Edge>
    decreases rs, n,
{
    if n == 0 || n > rs.len() {
        Seq::empty()
    } else {
        parts_arcs(rs, base, (n - 1) as nat) + arcs_of(rs[n - 1], part_lo(base, rs, n - 1))
    }
}

/// What an alternation adds to its parts: from its start to the start of
/// each, and from the accepting state of each to its own.
pub open spec fn alt_links(rs: Seq<RegEx<Vec<u32>>>, base: int) -> Seq<Edge> {
    let top = part_lo(base, rs, rs.len() as int);
    Seq::new(rs.len(), |i: int| eps_edge(top as u32, part_ends(rs, base, i).start.0)) + Seq::new(
        rs.len(),
        |i: int| eps_edge(part_ends(rs, base, i).accepted.0, (top + 1) as u32),
    )
}

/// Where link `i` of a concatenation leads from and to: from its start, or
/// from the accepting state of the part before, to the start of part `i`,
/// or to its accepting state after the last.
pub open spec fn concat_link(rs: Seq<RegEx<Vec<u32>>>, base: int, i: int) -> Edge {
    let top = part_lo(base, rs, rs.len() as int);
    eps_edge(
        if i == 0 {
            top as u32
        } else {
            part_ends(rs, base, i - 1).accepted.0
        },
        if i == rs.len() {
            (top + 1) as u32
        } else {
            part_ends(rs, base, i).start.0
        },
    )
}

/// What a concatenation adds to its parts: one link more than it has parts.
pub open spec fn concat_links(rs: Seq<RegEx<Vec<u32>>>, base: int) -> Seq<Edge> {
    Seq::new(rs.len() + 1, |i: int| concat_link(rs, base, i))
}

/// What an option adds to its part: the way past it, the way in and the
/// way out.
pub open spec fn optional_links(x: RegEx<Vec<u32>>, base: int) -> Seq<Edge> {
    let top = base + states_needed(x);
    seq![
        eps_edge(top as u32, (top + 1) as u32),
        eps_edge(top as u32, ends_of(x, base).start.0),
        eps_edge(ends_of(x, base).accepted.0, (top + 1) as u32),
    ]
}

/// The two sequences hold the same transitions.
pub open spec fn same_arcs(a: Seq<Edge>, b: Seq<Edge>) -> bool {
    forall|e: Edge| #![trigger a.contains(e)] #![trigger b.contains(e)] a.contains(e) <==> b.contains(e)
}

/// `more` holds the transitions of `edges` and those of `added`, and no
/// others.
pub open spec fn grown_by(edges: Seq<Edge>, more: Seq<Edge>, added: Seq<Edge>) -> bool {
    forall|e: Edge|
        #![trigger more.contains(e)]
        #![trigger edges.contains(e)]
        #![trigger added.contains(e)]
        more.contains(e) <==> edges.contains(e) || added.contains(e)
}

/// What two sequences in a row hold is what either holds.
pub proof fn lemma_contains_add(a: Seq<Edge>, b: Seq<Edge>, e: Edge)
    ensures
        (a + b).contains(e) <==> a.contains(e) || b.contains(e),
{
    if a.contains(e) {
        let i = choose|i: int| 0 <= i < a.len() && a[i] == e;
        assert((a + b)[i] == e);
    }
    if b.contains(e) {
        let i = choose|i: int| 0 <= i < b.len() && b[i] == e;
        assert((a + b)[a.len() + i] == e);
    }
    if (a + b).contains(e) {
        let i = choose|i: int| 0 <= i < (a + b).len() && (a + b)[i] == e;
        if i < a.len() {
            assert(a[i] == e);
        } else {
            assert(b[i - a.len()] == e);
        }
    }
}

/// The automaton of a single atom is the transitions that `atom` adds.
pub proof fn lemma_atom_shape(before: Seq<Edge>, after: Seq<Edge>, v: Vec<u32>, m: NFA, base: int)
    requires
        0 <= base,
        base + 2 <= u32::MAX,
        m.start.0 == base,
        m.accepted.0 == base + 1,
        forall|e: Edge|
            #![trigger after.contains(e)]
            #![trigger before.contains(e)]
            after.contains(e) <==> (before.contains(e) || (e.departure.0 == m.start.0 && e.destination.0
                == m.accepted.0 && exists|i: int| 0 <= i < v@.len() && e.input.0 == Some(#[trigger] v@[i]))),
    ensures
        m == ends_of(RegEx::Atom(v), base),
        grown_by(before, after, arcs_of(RegEx::Atom(v), base)),
{
    let added = arcs_of(RegEx::Atom(v), base);
    assert(m.start == NFAState(m.start.0) && m.accepted == NFAState(m.accepted.0));
    assert forall|e: Edge| after.contains(e) <==> before.contains(e) || added.contains(e) by {
        if added.contains(e) {
            let i = choose|i: int| 0 <= i < added.len() && added[i] == e;
            assert(e.input.0 == Some(v@[i]));
        }
        if e.departure.0 == m.start.0 && e.destination.0 == m.accepted.0 && exists|i: int|
            0 <= i < v@.len() && e.input.0 == Some(#[trigger] v@[i]) {
            let i = choose|i: int| 0 <= i < v@.len() && e.input.0 == Some(#[trigger] v@[i]);
            assert(e.departure == NFAState(e.departure.0) && e.destination == NFAState(e.destination.0));
            assert(e.input == NFAInput(e.input.0));
            assert(added[i] == e);
        }
    }
}

/// The parts of an alternation and the transitions that `alt` adds are the
/// parts and the links of the alternation.
pub proof fn lemma_alt_links(
    before: Seq<Edge>,
    mid: Seq<Edge>,
    after: Seq<Edge>,
    rs: Seq<RegEx<Vec<u32>>>,
    ms: Seq<NFA>,
    m: NFA,
    base: int,
)
    requires
        0 <= base,
        base + sum_needed(rs, rs.len()) + 2 <= u32::MAX,
        ms.len() == rs.len(),
        forall|i: int| 0 <= i < ms.len() ==> #[trigger] ms[i] == part_ends(rs, base, i),
        grown_by(before, mid, parts_arcs(rs, base, rs.len())),
        m.start.0 == base + sum_needed(rs, rs.len()),
        m.accepted.0 == base + sum_needed(rs, rs.len()) + 1,
        forall|e: Edge|
            #![trigger after.contains(e)]
            #![trigger mid.contains(e)]
            after.contains(e) <==> (mid.contains(e) || exists|i: int|
                0 <= i < ms.len() && alt_edge(e, m, #[trigger] ms[i])),
    ensures
        grown_by(before, after, parts_arcs(rs, base, rs.len()) + alt_links(rs, base)),
{
    let parts = parts_arcs(rs, base, rs.len());
    let links = alt_links(rs, base);
    let top = part_lo(base, rs, rs.len() as int);
    let ins = Seq::new(rs.len(), |i: int| eps_edge(top as u32, part_ends(rs, base, i).start.0));
    let outs = Seq::new(rs.len(), |i: int| eps_edge(part_ends(rs, base, i).accepted.0, (top + 1) as u32));
    assert(m.start == NFAState(m.start.0) && m.accepted == NFAState(m.accepted.0));
    assert forall|e: Edge| after.contains(e) <==> before.contains(e) || (parts + links).contains(e) by {
        lemma_contains_add(parts, links, e);
        lemma_contains_add(ins, outs, e);
        if ins.contains(e) {
            let i = choose|i: int| 0 <= i < ins.len() && ins[i] == e;
            assert(ms[i].start == NFAState(ms[i].start.0));
            assert(alt_edge(e, m, ms[i]));
        }
        if outs.contains(e) {
            let i = choose|i: int| 0 <= i < outs.len() && outs[i] == e;
            assert(ms[i].accepted == NFAState(ms[i].accepted.0));
            assert(alt_edge(e, m, ms[i]));
        }
        if exists|i: int| 0 <= i < ms.len() && alt_edge(e, m, #[trigger] ms[i]) {
            let i = choose|i: int| 0 <= i < ms.len() && alt_edge(e, m, #[trigger] ms[i]);
            assert(ms[i].start == NFAState(ms[i].start.0));
            assert(ms[i].accepted == NFAState(ms[i].accepted.0));
            if e == (Edge { departure: m.start, destination: ms[i].start, input: NFAInput(None) }) {
                assert(ins[i] == e);
            } else {
                assert(outs[i] == e);
            }
        }
    }
}

/// The automaton of an alternation is its parts and the transitions that
/// `alt` adds.
pub proof fn lemma_alt_shape(
    before: Seq<Edge>,
    mid: Seq<Edge>,
    after: Seq<Edge>,
    v: Vec<RegEx<Vec<u32>>>,
    ms: Seq<NFA>,
    m: NFA,
    base: int,
)
    requires
        0 <= base,
        base + sum_needed(v@, v@.len()) + 2 <= u32::MAX,
        ms.len() == v@.len(),
        forall|i: int| 0 <= i < ms.len() ==> #[trigger] ms[i] == part_ends(v@, base, i),
        grown_by(before, mid, parts_arcs(v@, base, v@.len())),
        m.start.0 == base + sum_needed(v@, v@.len()),
        m.accepted.0 == base + sum_needed(v@, v@.len()) + 1,
        forall|e: Edge|
            #![trigger after.contains(e)]
            #![trigger mid.contains(e)]
            after.contains(e) <==> (mid.contains(e) || exists|i: int|
                0 <= i < ms.len() && alt_edge(e, m, #[trigger] ms[i])),
    ensures
        m == ends_of(RegEx::Alt(v), base),
        grown_by(before, after, arcs_of(RegEx::Alt(v), base)),
{
    lemma_alt_links(before, mid, after, v@, ms, m, base);
    assert(m.start == NFAState(m.start.0) && m.accepted == NFAState(m.accepted.0));
}

/// The automaton of a concatenation is its parts and the transitions that
/// `concat` adds.
pub proof fn lemma_concat_shape(
    before: Seq<Edge>,
    mid: Seq<Edge>,
    after: Seq<Edge>,
    v: Vec<RegEx<Vec<u32>>>,
    ms: Seq<NFA>,
    m: NFA,
    base: int,
)
    requires
        0 <= base,
        base + sum_needed(v@, v@.len()) + 2 <= u32::MAX,
        ms.len() == v@.len(),
        forall|i: int| 0 <= i < ms.len() ==> #[trigger] ms[i] == part_ends(v@, base, i),
        grown_by(before, mid, parts_arcs(v@, base, v@.len())),
        m.start.0 == base + sum_needed(v@, v@.len()),
        m.accepted.0 == base + sum_needed(v@, v@.len()) + 1,
        forall|e: Edge|
            #![trigger after.contains(e)]
            #![trigger mid.contains(e)]
            after.contains(e) <==> (mid.contains(e) || exists|i: int|
                0 <= i <= ms.len() && #[trigger] concat_edge(e, m, ms, i)),
    ensures
        m == ends_of(RegEx::Concat(v), base),
        grown_by(before, after, arcs_of(RegEx::Concat(v), base)),
{
    let rs = v@;
    let parts = parts_arcs(rs, base, rs.len());
    let links = concat_links(rs, base);
    assert(m.start == NFAState(m.start.0) && m.accepted == NFAState(m.accepted.0));
    assert forall|i: int| 0 <= i <= ms.len() implies #[trigger] concat_edge(links[i], m, ms, i) by {
        if i > 0 {
            assert(ms[i - 1] == part_ends(rs, base, i - 1));
            assert(ms[i - 1].accepted == NFAState(ms[i - 1].accepted.0));
        }
        if i < ms.len() {
            assert(ms[i] == part_ends(rs, base, i));
            assert(ms[i].start == NFAState(ms[i].start.0));
        }
    }
    assert forall|e: Edge| after.contains(e) <==> before.contains(e) || (parts + links).contains(e) by {
        lemma_contains_add(parts, links, e);
        if links.contains(e) {
            let i = choose|i: int| 0 <= i < links.len() && links[i] == e;
            assert(concat_edge(links[i], m, ms, i));
        }
        if exists|i: int| 0 <= i <= ms.len() && #[trigger] concat_edge(e, m, ms, i) {
            let i = choose|i: int| 0 <= i <= ms.len() && #[trigger] concat_edge(e, m, ms, i);
            assert(concat_edge(links[i], m, ms, i));
            assert(links[i] == e);
        }
    }
}

/// The automaton of a repetition is that of what it repeats and the
/// transition that `some` adds.
pub proof fn lemma_some_shape(
    before: Seq<Edge>,
    mid: Seq<Edge>,
    after: Seq<Edge>,
    x: Box<RegEx<Vec<u32>>>,
    m: NFA,
    base: int,
)
    requires
        m == ends_of(*x, base),
        grown_by(before, mid, arcs_of(*x, base)),
        forall|e: Edge|
            #![trigger after.contains(e)]
            #![trigger mid.contains(e)]
            after.contains(e) <==> (mid.contains(e) || e == (Edge {
                departure: m.accepted,
                destination: m.start,
                input: NFAInput(None),
            })),
    ensures
        m == ends_of(RegEx::OneOrMore(x), base),
        grown_by(before, after, arcs_of(RegEx::OneOrMore(x), base)),
{
    let inner = arcs_of(*x, base);
    let back = eps_edge(m.accepted.0, m.start.0);
    assert(m.start == NFAState(m.start.0) && m.accepted == NFAState(m.accepted.0));
    assert forall|e: Edge| after.contains(e) <==> before.contains(e) || inner.push(back).contains(e) by {
        if inner.push(back).contains(e) {
            let i = choose|i: int| 0 <= i < inner.push(back).len() && inner.push(back)[i] == e;
            if i < inner.len() {
                assert(inner[i] == e);
            }
        }
        if inner.contains(e) {
            let i = choose|i: int| 0 <= i < inner.len() && inner[i] == e;
            assert(inner.push(back)[i] == e);
        }
        assert(inner.push(back)[inner.len() as int] == back);
    }
}

/// The automaton of an option is that of its part and the transitions
/// that `optional` adds.
pub proof fn lemma_optional_shape(
    before: Seq<Edge>,
    mid: Seq<Edge>,
    after: Seq<Edge>,
    x: Box<RegEx<Vec<u32>>>,
    sub: NFA,
    m: NFA,
    base: int,
)
    requires
        0 <= base,
        base + states_needed(*x) + 2 <= u32::MAX,
        sub == ends_of(*x, base),
        grown_by(before, mid, arcs_of(*x, base)),
        m.start.0 == base + states_needed(*x),
        m.accepted.0 == base + states_needed(*x) + 1,
        forall|e: Edge|
            #![trigger after.contains(e)]
            #![trigger mid.contains(e)]
            after.contains(e) <==> (mid.contains(e) || e == (Edge {
                departure: m.start,
                destination: m.accepted,
                input: NFAInput(None),
            }) || e == (Edge { departure: m.start, destination: sub.start, input: NFAInput(None) }) || e == (Edge {
                departure: sub.accepted,
                destination: m.accepted,
                input: NFAInput(None),
            })),
    ensures
        m == ends_of(RegEx::Optional(x), base),
        grown_by(before, after, arcs_of(RegEx::Optional(x), base)),
{
    let inner = arcs_of(*x, base);
    let links = optional_links(*x, base);
    assert(m.start == NFAState(m.start.0) && m.accepted == NFAState(m.accepted.0));
    assert(sub.start == NFAState(sub.start.0) && sub.accepted == NFAState(sub.accepted.0));
    assert forall|e: Edge| after.contains(e) <==> before.contains(e) || (inner + links).contains(e) by {
        lemma_contains_add(inner, links, e);
        if links.contains(e) {
            let i = choose|i: int| 0 <= i < links.len() && links[i] == e;
        }
        assert(links[0] == eps_edge(m.start.0, m.accepted.0));
        assert(links[1] == eps_edge(m.start.0, sub.start.0));
        assert(links[2] == eps_edge(sub.accepted.0, m.accepted.0));
    }
}

/// Transitions in order are known by what they hold: two sequences in
/// order that hold the same transitions are the same sequence.
pub proof fn lemma_sorted_same_arcs(a: Seq<Edge>, b: Seq<Edge>)
    requires
        edges_sorted(a),
        edges_sorted(b),
        same_arcs(a, b),
    ensures
        a == b,
    decreases a.len(),
{
    if a.len() == 0 {
        if b.len() > 0 {
            assert(b.contains(b[0]));
            assert(a.contains(b[0]));
        }
        assert(a =~= b);
    } else {
        let x = a.last();
        assert(a.contains(x));
        assert(b.contains(x));
        let y = b.last();
        assert(b.contains(y));
        assert(a.contains(y));
        let i = choose|i: int| 0 <= i < a.len() && a[i] == y;
        let j = choose|j: int| 0 <= j < b.len() && b[j] == x;
        if i < a.len() - 1 {
            assert(a[i].lt(a[a.len() - 1]));
        }
        if j < b.len() - 1 {
            assert(b[j].lt(b[b.len() - 1]));
        }
        assert(x == y);
        let a0 = a.drop_last();
        let b0 = b.drop_last();
        assert forall|e: Edge| a0.contains(e) <==> b0.contains(e) by {
            if a0.contains(e) {
                let k = choose|k: int| 0 <= k < a0.len() && a0[k] == e;
                assert(a[k].lt(a[a.len() - 1]));
                assert(a.contains(e));
                let l = choose|l: int| 0 <= l < b.len() && b[l] == e;
                assert(b0[l] == e);
            }
            if b0.contains(e) {
                let k = choose|k: int| 0 <= k < b0.len() && b0[k] == e;
                assert(b[k].lt(b[b.len() - 1]));
                assert(b.contains(e));
                let l = choose|l: int| 0 <= l < a.len() && a[l] == e;
                assert(a0[l] == e);
            }
        }
        assert(edges_sorted(a0)) by {
            assert forall|p: int, q: int| 0 <= p < q < a0.len() implies (#[trigger] a0[p]).lt(#[trigger] a0[q]) by {
                assert(a[p].lt(a[q]));
            }
        }
        assert(edges_sorted(b0)) by {
            assert forall|p: int, q: int| 0 <= p < q < b0.len() implies (#[trigger] b0[p]).lt(#[trigger] b0[q]) by {
                assert(b[p].lt(b[q]));
            }
        }
        lemma_sorted_same_arcs(a0, b0);
        assert(a =~= a0.push(x));
        assert(b =~= b0.push(y));
    }
}

/// What is reached among some transitions is reached among the same
/// transitions in another order.
pub proof fn lemma_same_arcs_reach(a: Seq<Edge>, b: Seq<Edge>)
    requires
        same_arcs(a, b),
    ensures
        forall|s: u32, w: Seq<u32>, t: u32|
            #![trigger nfa_reaches(a, s, w, t)]
            #![trigger nfa_reaches(b, s, w, t)]
            nfa_reaches(a, s, w, t) == nfa_reaches(b, s, w, t),
{
    assert forall|s: u32, w: Seq<u32>, t: u32|
        #![trigger nfa_reaches(a, s, w, t)]
        #![trigger nfa_reaches(b, s, w, t)]
        nfa_reaches(a, s, w, t) == nfa_reaches(b, s, w, t) by {
        if nfa_reaches(a, s, w, t) {
            lemma_reaches_grows(a, b, s, w, t);
        }
        if nfa_reaches(b, s, w, t) {
            lemma_reaches_grows(b, a, s, w, t);
        }
    }
}

/// The start and the accepting state of an automaton are two states.
pub proof fn lemma_ends_apart(r: RegEx<Vec<u32>>, base: int)
    requires
        0 <= base,
        base + states_needed(r) <= u32::MAX,
    ensures
        ends_of(r, base).start.0 != ends_of(r, base).accepted.0,
        base <= ends_of(r, base).start.0 < base + states_needed(r),
        base <= ends_of(r, base).accepted.0 < base + states_needed(r),
    decreases r,
{
    match r {
        RegEx::OneOrMore(x) => {
            lemma_ends_apart(*x, base);
        },
        _ => {},
    }
}

} // verus!
