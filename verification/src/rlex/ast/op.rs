//! The operators of regular expressions, and the two traits by which a tree
//! of them is walked and printed.

use vstd::prelude::*;
use crate::text::push_char;

verus! {

/// One node of a regular expression: an atom, or an operator applied to
/// sub-expressions of type `R`.
pub enum RegOp<A, R> {
    /// A single atom.
    Atom(A),
    /// One of several alternatives; none at all matches nothing.
    Alt(Vec<R>),
    /// Several expressions in a row; none at all matches the empty string.
    Concat(Vec<R>),
    /// One or more repetitions.
    OneOrMore(Box<R>),
    /// Zero or one occurrence.
    Optional(Box<R>),
}

/// Element by element, `out` is what `g` may return for `xs`.
pub open spec fn mapped_seq<R, S, G: Fn(R) -> S>(xs: Seq<R>, g: G, out: Seq<S>) -> bool {
    &&& out.len() == xs.len()
    &&& forall|i: int| 0 <= i < xs.len() ==> call_ensures(g, (xs[i],), #[trigger] out[i])
}

/// Applies `g` to every element, in order.
pub fn map_vec<R, S, G: Fn(R) -> S>(xs: Vec<R>, g: &G) -> (out: Vec<S>)
    requires
        forall|i: int| 0 <= i < xs@.len() ==> call_requires(*g, (#[trigger] xs@[i],)),
    ensures
        mapped_seq(xs@, *g, out@),
{
    let ghost all = xs@;
    let mut xs = xs;
    let mut out: Vec<S> = Vec::new();
    // The elements are taken from the back, so the result is built reversed
    // and turned round at the end.
    let mut rev: Vec<S> = Vec::new();
    while xs.len() > 0
        invariant
            xs@.len() <= all.len(),
            xs@ == all.subrange(0, xs@.len() as int),
            rev@.len() == all.len() - xs@.len(),
            forall|i: int| 0 <= i < all.len() ==> call_requires(*g, (#[trigger] all[i],)),
            forall|j: int|
                0 <= j < rev@.len() ==> call_ensures(*g, (all[all.len() - 1 - j],), #[trigger] rev@[j]),
        decreases xs@.len(),
    {
        let ghost before = xs@;
        let x = xs.pop().unwrap();
        proof {
            assert(x == all[before.len() - 1]);
            assert(xs@ =~= all.subrange(0, xs@.len() as int));
        }
        let y = g(x);
        rev.push(y);
    }
    while rev.len() > 0
        invariant
            rev@.len() + out@.len() == all.len(),
            forall|j: int|
                0 <= j < rev@.len() ==> call_ensures(*g, (all[all.len() - 1 - j],), #[trigger] rev@[j]),
            forall|i: int| 0 <= i < out@.len() ==> call_ensures(*g, (all[i],), #[trigger] out@[i]),
        decreases rev@.len(),
    {
        let y = rev.pop().unwrap();
        out.push(y);
    }
    out
}

impl<A, R> RegOp<A, R> {
    /// Whether `out` is what mapping the atom with `f` and the
    /// sub-expressions with `g` may give.
    pub open spec fn bimapped<B, S, F: Fn(A) -> B, G: Fn(R) -> S>(
        self,
        f: F,
        g: G,
        out: RegOp<B, S>,
    ) -> bool {
        match (self, out) {
            (RegOp::Atom(a), RegOp::Atom(b)) => call_ensures(f, (a,), b),
            (RegOp::Alt(rs), RegOp::Alt(ss)) => mapped_seq(rs@, g, ss@),
            (RegOp::Concat(rs), RegOp::Concat(ss)) => mapped_seq(rs@, g, ss@),
            (RegOp::OneOrMore(r), RegOp::OneOrMore(s)) => call_ensures(g, (*r,), *s),
            (RegOp::Optional(r), RegOp::Optional(s)) => call_ensures(g, (*r,), *s),
            _ => false,
        }
    }

    /// Whether `f` and `g` may be called on what the node holds.
    pub open spec fn bimap_callable<B, S, F: Fn(A) -> B, G: Fn(R) -> S>(self, f: F, g: G) -> bool {
        match self {
            RegOp::Atom(a) => call_requires(f, (a,)),
            RegOp::Alt(rs) => forall|i: int| 0 <= i < rs@.len() ==> call_requires(g, (#[trigger] rs@[i],)),
            RegOp::Concat(rs) => forall|i: int|
                0 <= i < rs@.len() ==> call_requires(g, (#[trigger] rs@[i],)),
            RegOp::OneOrMore(r) => call_requires(g, (*r,)),
            RegOp::Optional(r) => call_requires(g, (*r,)),
        }
    }

    /// Maps the atom with `f` and every sub-expression with `g`, keeping the
    /// operator.
    pub fn bimap<B, S, F: Fn(A) -> B, G: Fn(R) -> S>(self, f: F, g: G) -> (out: RegOp<B, S>)
        requires
            self.bimap_callable(f, g),
        ensures
            self.bimapped(f, g, out),
    {
        match self {
            RegOp::Atom(a) => RegOp::Atom(f(a)),
            RegOp::Alt(rs) => RegOp::Alt(map_vec(rs, &g)),
            RegOp::Concat(rs) => RegOp::Concat(map_vec(rs, &g)),
            RegOp::OneOrMore(r) => RegOp::OneOrMore(Box::new(g(*r))),
            RegOp::Optional(r) => RegOp::Optional(Box::new(g(*r))),
        }
    }
}

/// A container whose items can be visited in order.
pub trait ForEach {
    /// What is visited.
    type Item;

    /// The items, in the order of the visit.
    spec fn items(&self) -> Seq<Self::Item>;

    /// Visits every item from left to right and appends a reference to each
    /// to `out`.
    fn for_each<'a>(&'a self, out: &mut Vec<&'a Self::Item>)
        ensures
            final(out)@.len() == old(out)@.len() + self.items().len(),
            forall|i: int| 0 <= i < old(out)@.len() ==> final(out)@[i] == old(out)@[i],
            forall|i: int|
                0 <= i < self.items().len() ==> *final(out)@[old(out)@.len() + i] == self.items()[i],
    ;
}

/// Values with a printed form, which may depend on a context.
pub trait Pretty {
    /// What the printed form depends on.
    type Context;

    /// The printed form.
    spec fn pretty(&self, context: Self::Context) -> Seq<char>;

    /// Appends the printed form to `out`.
    fn pretty_fmt(&self, out: &mut String, context: Self::Context)
        ensures
            final(out)@ == old(out)@ + self.pretty(context),
    ;
}

/// An opening or closing bracket where precedence `k` is below the context
/// `n`, nothing otherwise.
pub open spec fn bracket(k: usize, n: usize, c: char) -> Seq<char> {
    if k < n {
        seq![c]
    } else {
        Seq::empty()
    }
}

/// Appends [`bracket`] to `out`.
pub fn write_bracket(out: &mut String, k: usize, n: usize, c: char)
    ensures
        final(out)@ == old(out)@ + bracket(k, n, c),
{
    if k < n {
        push_char(out, c);
        proof {
            assert(final(out)@ =~= old(out)@ + bracket(k, n, c));
        }
    } else {
        proof {
            assert(final(out)@ =~= old(out)@ + bracket(k, n, c));
        }
    }
}

} // verus!
