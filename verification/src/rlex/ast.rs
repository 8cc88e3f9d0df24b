//! Abstract syntax of lexer rules: regular expressions, and their
//! classification over a table of split points.

pub mod bounds;
pub mod char_class;
pub mod op;
pub mod classify;

use vstd::prelude::*;
use crate::rlex::ast::char_class::{
    class_text,
    ranges_contain,
    ranges_normal,
    UnicodeCharClass,
    UnicodeCharRange,
    CODE_POINT_LIMIT,
};
use crate::rlex::ast::classify::{
    block_inside,
    block_outside,
    blocks_contain,
    class_indices,
    class_point,
    classify_class,
    in_block,
    lemma_class_complete,
    lemma_class_respects,
    respects,
    split_table,
};
use crate::rlex::ast::op::{bracket, write_bracket, ForEach, Pretty, RegOp};
use crate::rlex::ordered::{insert, strictly_increasing};
use crate::text::{decimal, push_char, push_decimal};

verus! {

/// A regular expression over atoms of type `A`.
pub enum RegEx<A> {
    /// A single atom.
    Atom(A),
    /// One of several alternatives; none at all matches nothing.
    Alt(Vec<RegEx<A>>),
    /// Several expressions in a row; none at all matches the empty string.
    Concat(Vec<RegEx<A>>),
    /// One or more repetitions.
    OneOrMore(Box<RegEx<A>>),
    /// Zero or one occurrence.
    Optional(Box<RegEx<A>>),
}

/// The atoms of the first `n` expressions of `rs`, from left to right.
pub open spec fn atoms_of<A>(rs: Seq<RegEx<A>>, n: nat) -> Seq<A>
    decreases rs, n,
{
    if n == 0 || n > rs.len() {
        Seq::empty()
    } else {
        atoms_of(rs, (n - 1) as nat) + rs[n - 1].atoms()
    }
}

impl<A> RegEx<A> {
    /// The atoms of the expression, from left to right.
    pub open spec fn atoms(self) -> Seq<A>
        decreases self, 0nat,
    {
        match self {
            RegEx::Atom(a) => seq![a],
            RegEx::Alt(rs) => atoms_of(rs@, rs@.len()),
            RegEx::Concat(rs) => atoms_of(rs@, rs@.len()),
            RegEx::OneOrMore(r) => r.atoms(),
            RegEx::Optional(r) => r.atoms(),
        }
    }

    /// Whether `out` has the shape of `self`, with an atom that `f` may
    /// return in the place of each atom.
    pub open spec fn mapped<B, F: Fn(&A) -> B>(self, f: F, out: RegEx<B>) -> bool
        decreases self,
    {
        match self {
            RegEx::Atom(a) => out matches RegEx::Atom(b) && call_ensures(f, (&a,), b),
            RegEx::Alt(rs) => out matches RegEx::Alt(ss) && ss@.len() == rs@.len() && forall|i: int|
                0 <= i < rs@.len() ==> (#[trigger] rs@[i]).mapped(f, ss@[i]),
            RegEx::Concat(rs) => out matches RegEx::Concat(ss) && ss@.len() == rs@.len() && forall|
                i: int,
            | 0 <= i < rs@.len() ==> (#[trigger] rs@[i]).mapped(f, ss@[i]),
            RegEx::OneOrMore(r) => out matches RegEx::OneOrMore(s) && r.mapped(f, *s),
            RegEx::Optional(r) => out matches RegEx::Optional(s) && r.mapped(f, *s),
        }
    }

    /// Whether `f` may be called on every atom.
    pub open spec fn callable<B, F: Fn(&A) -> B>(self, f: F) -> bool
        decreases self,
    {
        match self {
            RegEx::Atom(a) => call_requires(f, (&a,)),
            RegEx::Alt(rs) => forall|i: int| 0 <= i < rs@.len() ==> (#[trigger] rs@[i]).callable(f),
            RegEx::Concat(rs) => forall|i: int| 0 <= i < rs@.len() ==> (#[trigger] rs@[i]).callable(f),
            RegEx::OneOrMore(r) => r.callable(f),
            RegEx::Optional(r) => r.callable(f),
        }
    }

    /// Maps every atom with `f` and keeps the structure.
    pub fn fmap<B, F: Fn(&A) -> B>(&self, f: &F) -> (out: RegEx<B>)
        requires
            self.callable(*f),
        ensures
            self.mapped(*f, out),
        decreases self,
    {
        match self {
            RegEx::Atom(a) => RegEx::Atom(f(a)),
            RegEx::Alt(rs) => RegEx::Alt(Self::fmap_all(rs, f)),
            RegEx::Concat(rs) => RegEx::Concat(Self::fmap_all(rs, f)),
            RegEx::OneOrMore(r) => RegEx::OneOrMore(Box::new(r.fmap(f))),
            RegEx::Optional(r) => RegEx::Optional(Box::new(r.fmap(f))),
        }
    }

    fn fmap_all<B, F: Fn(&A) -> B>(rs: &Vec<RegEx<A>>, f: &F) -> (out: Vec<RegEx<B>>)
        requires
            forall|i: int| 0 <= i < rs@.len() ==> (#[trigger] rs@[i]).callable(*f),
        ensures
            out@.len() == rs@.len(),
            forall|i: int| 0 <= i < rs@.len() ==> (#[trigger] rs@[i]).mapped(*f, out@[i]),
        decreases rs,
    {
        let mut out: Vec<RegEx<B>> = Vec::new();
        let mut i: usize = 0;
        while i < rs.len()
            invariant
                i <= rs@.len(),
                out@.len() == i,
                forall|k: int| 0 <= k < rs@.len() ==> (#[trigger] rs@[k]).callable(*f),
                forall|k: int| 0 <= k < i ==> (#[trigger] rs@[k]).mapped(*f, out@[k]),
            decreases rs@.len() - i,
        {
            let y = rs[i].fmap(f);
            out.push(y);
            i += 1;
        }
        out
    }

    /// Whether `out` is what folding the expression with `f` may give: `f`
    /// is applied to each node after its sub-expressions were folded.
    pub open spec fn folded<B, F: Fn(RegOp<&A, B>) -> B>(self, f: F, out: B) -> bool
        decreases self,
    {
        match self {
            RegEx::Atom(a) => call_ensures(f, (RegOp::Atom(&a),), out),
            RegEx::Alt(rs) => exists|bs: Vec<B>| #[trigger]
                call_ensures(f, (RegOp::Alt(bs),), out) && bs@.len() == rs@.len() && forall|i: int|
                    0 <= i < rs@.len() ==> (#[trigger] rs@[i]).folded(f, bs@[i]),
            RegEx::Concat(rs) => exists|bs: Vec<B>| #[trigger]
                call_ensures(f, (RegOp::Concat(bs),), out) && bs@.len() == rs@.len() && forall|i: int|
                    0 <= i < rs@.len() ==> (#[trigger] rs@[i]).folded(f, bs@[i]),
            RegEx::OneOrMore(r) => exists|b: B| #[trigger]
                call_ensures(f, (RegOp::OneOrMore(Box::new(b)),), out) && r.folded(f, b),
            RegEx::Optional(r) => exists|b: B| #[trigger]
                call_ensures(f, (RegOp::Optional(Box::new(b)),), out) && r.folded(f, b),
        }
    }

    /// Folds the expression from the leaves up.
    pub fn fold<B, F: Fn(RegOp<&A, B>) -> B>(&self, f: &F) -> (out: B)
        requires
            forall|node: RegOp<&A, B>| call_requires(*f, (node,)),
        ensures
            self.folded(*f, out),
        decreases self,
    {
        match self {
            RegEx::Atom(a) => f(RegOp::Atom(a)),
            RegEx::Alt(rs) => {
                let bs = Self::fold_all(rs, f);
                f(RegOp::Alt(bs))
            },
            RegEx::Concat(rs) => {
                let bs = Self::fold_all(rs, f);
                f(RegOp::Concat(bs))
            },
            RegEx::OneOrMore(r) => {
                let b = r.fold(f);
                f(RegOp::OneOrMore(Box::new(b)))
            },
            RegEx::Optional(r) => {
                let b = r.fold(f);
                f(RegOp::Optional(Box::new(b)))
            },
        }
    }

    fn fold_all<B, F: Fn(RegOp<&A, B>) -> B>(rs: &Vec<RegEx<A>>, f: &F) -> (out: Vec<B>)
        requires
            forall|node: RegOp<&A, B>| call_requires(*f, (node,)),
        ensures
            out@.len() == rs@.len(),
            forall|i: int| 0 <= i < rs@.len() ==> (#[trigger] rs@[i]).folded(*f, out@[i]),
        decreases rs,
    {
        let mut out: Vec<B> = Vec::new();
        let mut i: usize = 0;
        while i < rs.len()
            invariant
                i <= rs@.len(),
                out@.len() == i,
                forall|node: RegOp<&A, B>| call_requires(*f, (node,)),
                forall|k: int| 0 <= k < i ==> (#[trigger] rs@[k]).folded(*f, out@[k]),
            decreases rs@.len() - i,
        {
            let y = rs[i].fold(f);
            out.push(y);
            i += 1;
        }
        out
    }

    fn visit_all<'a>(rs: &'a Vec<RegEx<A>>, out: &mut Vec<&'a A>)
        ensures
            final(out)@.len() == old(out)@.len() + atoms_of(rs@, rs@.len()).len(),
            forall|i: int| 0 <= i < old(out)@.len() ==> final(out)@[i] == old(out)@[i],
            forall|i: int|
                0 <= i < atoms_of(rs@, rs@.len()).len() ==> *final(out)@[old(out)@.len() + i] == atoms_of(
                    rs@,
                    rs@.len(),
                )[i],
        decreases rs,
    {
        let mut i: usize = 0;
        while i < rs.len()
            invariant
                i <= rs@.len(),
                out@.len() == old(out)@.len() + atoms_of(rs@, i as nat).len(),
                forall|k: int| 0 <= k < old(out)@.len() ==> out@[k] == old(out)@[k],
                forall|k: int|
                    0 <= k < atoms_of(rs@, i as nat).len() ==> *out@[old(out)@.len() + k] == atoms_of(
                        rs@,
                        i as nat,
                    )[k],
            decreases rs@.len() - i,
        {
            rs[i].for_each(out);
            i += 1;
        }
    }
}

impl<A> ForEach for RegEx<A> {
    type Item = A;

    open spec fn items(&self) -> Seq<A> {
        self.atoms()
    }

    fn for_each<'a>(&'a self, out: &mut Vec<&'a A>)
        decreases self,
    {
        match self {
            RegEx::Atom(a) => {
                out.push(a);
            },
            RegEx::Alt(rs) => Self::visit_all(rs, out),
            RegEx::Concat(rs) => Self::visit_all(rs, out),
            RegEx::OneOrMore(r) => r.for_each(out),
            RegEx::Optional(r) => r.for_each(out),
        }
    }
}

impl RegEx<UnicodeCharClass> {
    /// Whether `y` is an end point of a range of an atom of the expression.
    pub open spec fn is_point(self, y: u32) -> bool
        decreases self,
    {
        match self {
            RegEx::Atom(c) => class_point(c@, y),
            RegEx::Alt(rs) => exists|i: int| 0 <= i < rs@.len() && (#[trigger] rs@[i]).is_point(y),
            RegEx::Concat(rs) => exists|i: int| 0 <= i < rs@.len() && (#[trigger] rs@[i]).is_point(y),
            RegEx::OneOrMore(r) => r.is_point(y),
            RegEx::Optional(r) => r.is_point(y),
        }
    }

    /// Every atom of the expression is a class in normal form.
    pub open spec fn atoms_wf(self) -> bool
        decreases self,
    {
        match self {
            RegEx::Atom(c) => c.wf(),
            RegEx::Alt(rs) => forall|i: int| 0 <= i < rs@.len() ==> (#[trigger] rs@[i]).atoms_wf(),
            RegEx::Concat(rs) => forall|i: int| 0 <= i < rs@.len() ==> (#[trigger] rs@[i]).atoms_wf(),
            RegEx::OneOrMore(r) => r.atoms_wf(),
            RegEx::Optional(r) => r.atoms_wf(),
        }
    }

    /// Every atom of the expression is a union of whole blocks of the table.
    pub open spec fn respected_by(self, t: Seq<u32>) -> bool
        decreases self,
    {
        match self {
            RegEx::Atom(c) => respects(t, c@),
            RegEx::Alt(rs) => forall|i: int| 0 <= i < rs@.len() ==> (#[trigger] rs@[i]).respected_by(t),
            RegEx::Concat(rs) => forall|i: int|
                0 <= i < rs@.len() ==> (#[trigger] rs@[i]).respected_by(t),
            RegEx::OneOrMore(r) => r.respected_by(t),
            RegEx::Optional(r) => r.respected_by(t),
        }
    }

    /// Whether `out` is the classified form of the expression over table
    /// `t`: the same structure, with the block indices of each class in its
    /// place.
    pub open spec fn classified(self, t: Seq<u32>, out: RegEx<Vec<u32>>) -> bool
        decreases self,
    {
        match self {
            RegEx::Atom(c) => out matches RegEx::Atom(v) && class_indices(t, c@, v@),
            RegEx::Alt(rs) => out matches RegEx::Alt(ss) && ss@.len() == rs@.len() && forall|i: int|
                0 <= i < rs@.len() ==> (#[trigger] rs@[i]).classified(t, ss@[i]),
            RegEx::Concat(rs) => out matches RegEx::Concat(ss) && ss@.len() == rs@.len() && forall|
                i: int,
            | 0 <= i < rs@.len() ==> (#[trigger] rs@[i]).classified(t, ss@[i]),
            RegEx::OneOrMore(r) => out matches RegEx::OneOrMore(s) && r.classified(t, *s),
            RegEx::Optional(r) => out matches RegEx::Optional(s) && r.classified(t, *s),
        }
    }

    /// Whether every atom of `out` names blocks whose code points are those
    /// of the class in the same place of the expression.
    pub open spec fn same_code_points(self, t: Seq<u32>, out: RegEx<Vec<u32>>) -> bool
        decreases self,
    {
        match self {
            RegEx::Atom(c) => out matches RegEx::Atom(v) && forall|x: int|
                ranges_contain(c@, x) <==> blocks_contain(t, v@, x),
            RegEx::Alt(rs) => out matches RegEx::Alt(ss) && ss@.len() == rs@.len() && forall|i: int|
                0 <= i < rs@.len() ==> (#[trigger] rs@[i]).same_code_points(t, ss@[i]),
            RegEx::Concat(rs) => out matches RegEx::Concat(ss) && ss@.len() == rs@.len() && forall|
                i: int,
            | 0 <= i < rs@.len() ==> (#[trigger] rs@[i]).same_code_points(t, ss@[i]),
            RegEx::OneOrMore(r) => out matches RegEx::OneOrMore(s) && r.same_code_points(t, *s),
            RegEx::Optional(r) => out matches RegEx::Optional(s) && r.same_code_points(t, *s),
        }
    }

    /// Adds the end points of every range of every atom to `res`.
    fn collect_points(&self, res: &mut Vec<u32>)
        requires
            strictly_increasing(old(res)@),
            forall|y: u32| old(res)@.contains(y) ==> y <= CODE_POINT_LIMIT,
        ensures
            strictly_increasing(final(res)@),
            forall|y: u32| final(res)@.contains(y) ==> y <= CODE_POINT_LIMIT,
            forall|y: u32|
                #![trigger final(res)@.contains(y)]
                #![trigger old(res)@.contains(y)]
                #![trigger self.is_point(y)]
                final(res)@.contains(y) <==> (old(res)@.contains(y) || self.is_point(y)),
            self.atoms_wf(),
        decreases self,
    {
        match self {
            RegEx::Atom(c) => {
                let ranges = c.iter();
                let mut i: usize = 0;
                while i < ranges.len()
                    invariant
                        i <= ranges@.len(),
                        ranges_normal(ranges@),
                        strictly_increasing(res@),
                        forall|y: u32| res@.contains(y) ==> y <= CODE_POINT_LIMIT,
                        forall|y: u32|
                            #![trigger res@.contains(y)]
                            res@.contains(y) <==> (old(res)@.contains(y) || class_point(
                                ranges@.subrange(0, i as int),
                                y,
                            )),
                    decreases ranges@.len() - i,
                {
                    let cur = ranges[i];
                    let ghost before = res@;
                    let ghost prefix = ranges@.subrange(0, i as int);
                    let ghost longer = ranges@.subrange(0, i + 1);
                    proof {
                        assert(cur.wf());
                    }
                    insert(res, cur.begin);
                    insert(res, cur.end);
                    proof {
                        assert forall|y: u32|
                            res@.contains(y) <==> (old(res)@.contains(y) || class_point(longer, y)) by {
                            if class_point(prefix, y) {
                                let j = choose|j: int|
                                    0 <= j < prefix.len() && ((#[trigger] prefix[j]).begin == y
                                        || prefix[j].end == y);
                                assert(longer[j] == prefix[j]);
                            }
                            if class_point(longer, y) {
                                let j = choose|j: int|
                                    0 <= j < longer.len() && ((#[trigger] longer[j]).begin == y
                                        || longer[j].end == y);
                                if j < i {
                                    assert(prefix[j] == longer[j]);
                                }
                            }
                            if y == cur.begin || y == cur.end {
                                assert(longer[i as int] == cur);
                            }
                        }
                    }
                    i += 1;
                }
                proof {
                    assert(ranges@.subrange(0, ranges@.len() as int) =~= ranges@);
                    assert forall|y: u32|
                        res@.contains(y) <==> (old(res)@.contains(y) || self.is_point(y)) by {
                        assert(self.is_point(y) == class_point(c@, y));
                    }
                }
            },
            RegEx::Alt(rs) => Self::collect_points_all(rs, res),
            RegEx::Concat(rs) => Self::collect_points_all(rs, res),
            RegEx::OneOrMore(r) => r.collect_points(res),
            RegEx::Optional(r) => r.collect_points(res),
        }
    }

    fn collect_points_all(rs: &Vec<RegEx<UnicodeCharClass>>, res: &mut Vec<u32>)
        requires
            strictly_increasing(old(res)@),
            forall|y: u32| old(res)@.contains(y) ==> y <= CODE_POINT_LIMIT,
        ensures
            strictly_increasing(final(res)@),
            forall|y: u32| final(res)@.contains(y) ==> y <= CODE_POINT_LIMIT,
            forall|y: u32|
                #![trigger final(res)@.contains(y)]
                #![trigger old(res)@.contains(y)]
                final(res)@.contains(y) <==> (old(res)@.contains(y) || exists|i: int|
                    0 <= i < rs@.len() && (#[trigger] rs@[i]).is_point(y)),
            forall|i: int| 0 <= i < rs@.len() ==> (#[trigger] rs@[i]).atoms_wf(),
        decreases rs,
    {
        let mut n: usize = 0;
        while n < rs.len()
            invariant
                n <= rs@.len(),
                strictly_increasing(res@),
                forall|y: u32| res@.contains(y) ==> y <= CODE_POINT_LIMIT,
                forall|y: u32|
                    #![trigger res@.contains(y)]
                    res@.contains(y) <==> (old(res)@.contains(y) || exists|i: int|
                        0 <= i < n && (#[trigger] rs@[i]).is_point(y)),
                forall|i: int| 0 <= i < n ==> (#[trigger] rs@[i]).atoms_wf(),
            decreases rs@.len() - n,
        {
            let ghost before = res@;
            rs[n].collect_points(res);
            proof {
                assert forall|y: u32|
                    res@.contains(y) <==> (old(res)@.contains(y) || exists|i: int|
                        0 <= i < n + 1 && (#[trigger] rs@[i]).is_point(y)) by {
                    if rs@[n as int].is_point(y) {
                    }
                    if exists|i: int| 0 <= i < n + 1 && (#[trigger] rs@[i]).is_point(y) {
                        let i = choose|i: int| 0 <= i < n + 1 && (#[trigger] rs@[i]).is_point(y);
                        if i < n {
                            assert(before.contains(y));
                        }
                    }
                }
            }
            n += 1;
        }
    }

    /// Adds to `res` the split points that the expression asks for: both end
    /// points of every range of every atom, and the two ends of Unicode.
    pub fn collect_split_points(&self, res: &mut Vec<u32>)
        requires
            strictly_increasing(old(res)@),
            forall|y: u32| old(res)@.contains(y) ==> y <= CODE_POINT_LIMIT,
        ensures
            split_table(final(res)@),
            forall|y: u32|
                #![trigger final(res)@.contains(y)]
                final(res)@.contains(y) <==> (old(res)@.contains(y) || y == 0 || y == CODE_POINT_LIMIT
                    || self.is_point(y)),
            self.atoms_wf(),
    {
        insert(res, 0);
        let ghost first = res@;
        insert(res, CODE_POINT_LIMIT);
        let ghost second = res@;
        self.collect_points(res);
        proof {
            assert(first.contains(0));
            assert(second.contains(0));
            assert(second.contains(CODE_POINT_LIMIT));
            assert(res@.contains(0));
            assert(res@.contains(CODE_POINT_LIMIT));
            assert forall|y: u32|
                res@.contains(y) <==> (old(res)@.contains(y) || y == 0 || y == CODE_POINT_LIMIT
                    || self.is_point(y)) by {
                if old(res)@.contains(y) {
                    assert(first.contains(y));
                    assert(second.contains(y));
                }
                if res@.contains(y) && !self.is_point(y) {
                    assert(second.contains(y));
                    if y != CODE_POINT_LIMIT {
                        assert(first.contains(y));
                    }
                }
            }
            lemma_table_of_points(res@);
        }
    }

    /// Rewrites every atom as the set of the blocks of the table that it is
    /// made of.
    pub fn classify_chars_with(self, split_points: &[u32]) -> (out: RegEx<Vec<u32>>)
        requires
            split_table(split_points@),
            forall|y: u32| self.is_point(y) ==> split_points@.contains(y),
        ensures
            self.classified(split_points@, out),
            self.same_code_points(split_points@, out),
            self.respected_by(split_points@),
    {
        self.classify_ref(split_points)
    }

    /// Rewrites every atom as the set of the blocks of the table that it is
    /// made of, and leaves the expression as it is.
    pub fn classify_ref(&self, table: &[u32]) -> (out: RegEx<Vec<u32>>)
        requires
            split_table(table@),
            forall|y: u32| self.is_point(y) ==> table@.contains(y),
        ensures
            self.classified(table@, out),
            self.same_code_points(table@, out),
            self.respected_by(table@),
        decreases self,
    {
        match self {
            RegEx::Atom(c) => {
                let ranges = c.iter();
                proof {
                    assert forall|y: u32| class_point(c@, y) implies table@.contains(y) by {
                        assert(self.is_point(y));
                    }
                    lemma_class_respects(table@, c@);
                }
                RegEx::Atom(classify_class(c, table))
            },
            RegEx::Alt(rs) => {
                proof {
                    assert forall|i: int, y: u32|
                        0 <= i < rs@.len() && #[trigger] rs@[i].is_point(y) implies table@.contains(y) by {
                        assert(self.is_point(y));
                    }
                }
                RegEx::Alt(Self::classify_all(rs, table))
            },
            RegEx::Concat(rs) => {
                proof {
                    assert forall|i: int, y: u32|
                        0 <= i < rs@.len() && #[trigger] rs@[i].is_point(y) implies table@.contains(y) by {
                        assert(self.is_point(y));
                    }
                }
                RegEx::Concat(Self::classify_all(rs, table))
            },
            RegEx::OneOrMore(r) => {
                proof {
                    assert forall|y: u32| r.is_point(y) implies table@.contains(y) by {
                        assert(self.is_point(y));
                    }
                }
                RegEx::OneOrMore(Box::new(r.classify_ref(table)))
            },
            RegEx::Optional(r) => {
                proof {
                    assert forall|y: u32| r.is_point(y) implies table@.contains(y) by {
                        assert(self.is_point(y));
                    }
                }
                RegEx::Optional(Box::new(r.classify_ref(table)))
            },
        }
    }

    fn classify_all(rs: &Vec<RegEx<UnicodeCharClass>>, table: &[u32]) -> (out: Vec<RegEx<Vec<u32>>>)
        requires
            split_table(table@),
            forall|i: int, y: u32|
                0 <= i < rs@.len() && #[trigger] rs@[i].is_point(y) ==> table@.contains(y),
        ensures
            out@.len() == rs@.len(),
            forall|i: int| 0 <= i < rs@.len() ==> (#[trigger] rs@[i]).classified(table@, out@[i]),
            forall|i: int| 0 <= i < rs@.len() ==> (#[trigger] rs@[i]).same_code_points(table@, out@[i]),
            forall|i: int| 0 <= i < rs@.len() ==> (#[trigger] rs@[i]).respected_by(table@),
        decreases rs,
    {
        let mut out: Vec<RegEx<Vec<u32>>> = Vec::new();
        let mut n: usize = 0;
        while n < rs.len()
            invariant
                n <= rs@.len(),
                out@.len() == n,
                split_table(table@),
                forall|i: int, y: u32|
                    0 <= i < rs@.len() && #[trigger] rs@[i].is_point(y) ==> table@.contains(y),
                forall|i: int| 0 <= i < n ==> (#[trigger] rs@[i]).classified(table@, out@[i]),
                forall|i: int| 0 <= i < n ==> (#[trigger] rs@[i]).same_code_points(table@, out@[i]),
                forall|i: int| 0 <= i < n ==> (#[trigger] rs@[i]).respected_by(table@),
            decreases rs@.len() - n,
        {
            let y = rs[n].classify_ref(table);
            out.push(y);
            n += 1;
        }
        out
    }

    /// Computes the split points of the expression and classifies it over
    /// them.
    pub fn classify_chars(self) -> (out: (Vec<u32>, RegEx<Vec<u32>>))
        ensures
            split_table(out.0@),
            forall|y: u32|
                #![trigger out.0@.contains(y)]
                out.0@.contains(y) <==> (y == 0 || y == CODE_POINT_LIMIT || self.is_point(y)),
            self.atoms_wf(),
            self.classified(out.0@, out.1),
            self.same_code_points(out.0@, out.1),
            self.respected_by(out.0@),
    {
        let mut split_points: Vec<u32> = Vec::new();
        self.collect_split_points(&mut split_points);
        let regex = self.classify_ref(split_points.as_slice());
        (split_points, regex)
    }
}

/// A strictly increasing sequence of code points that holds both ends of
/// Unicode is a table of split points.
pub proof fn lemma_table_of_points(t: Seq<u32>)
    requires
        strictly_increasing(t),
        forall|y: u32| t.contains(y) ==> y <= CODE_POINT_LIMIT,
        t.contains(0),
        t.contains(CODE_POINT_LIMIT),
    ensures
        split_table(t),
{
    let i = choose|i: int| 0 <= i < t.len() && t[i] == 0;
    let j = choose|j: int| 0 <= j < t.len() && t[j] == CODE_POINT_LIMIT;
    assert(t.contains(t.last()));
    if i > 0 {
        assert(t[0] < t[i]);
    }
    if j < t.len() - 1 {
        assert(t[j] < t[t.len() - 1]);
    }
    assert(i != j);
}

/// Split-point minimality. The table that holds, besides the two ends of
/// Unicode, exactly the end points of the atoms of an expression has no
/// point to spare: with any interior point taken out, some atom is no longer
/// a union of whole blocks.
pub proof fn lemma_split_points_minimal(r: RegEx<UnicodeCharClass>, t: Seq<u32>, i: int)
    requires
        r.atoms_wf(),
        split_table(t),
        forall|y: u32| t.contains(y) <==> (y == 0 || y == CODE_POINT_LIMIT || r.is_point(y)),
        0 < i < t.len() - 1,
    ensures
        !r.respected_by(t.remove(i)),
{
    let p = t[i];
    assert(t.contains(p));
    assert(t[0] < t[i]);
    assert(t[i] < t[t.len() - 1]);
    assert(r.is_point(p));
    let shorter = t.remove(i);
    assert(shorter[i - 1] == t[i - 1]);
    assert(shorter[i] == t[i + 1]);
    assert(t[i - 1] < t[i]);
    assert(t[i] < t[i + 1]);
    lemma_point_breaks(r, shorter, p, i - 1);
}

/// An end point of an atom that lies strictly inside a block of a table
/// keeps that atom from being a union of whole blocks.
proof fn lemma_point_breaks(r: RegEx<UnicodeCharClass>, t: Seq<u32>, p: u32, k: int)
    requires
        r.atoms_wf(),
        r.is_point(p),
        0 <= k,
        k + 1 < t.len(),
        t[k] < p,
        p < t[k + 1],
    ensures
        !r.respected_by(t),
    decreases r,
{
    match r {
        RegEx::Atom(c) => {
            let cls = c@;
            let j = choose|j: int|
                0 <= j < cls.len() && ((#[trigger] cls[j]).begin == p || cls[j].end == p);
            assert(cls[j].wf());
            assert(in_block(t, k, p as int));
            assert(in_block(t, k, p - 1));
            assert(ranges_contain(cls, p as int) != ranges_contain(cls, p - 1)) by {
                lemma_point_is_border(cls, j, p);
            }
            assert(!block_inside(t, k, cls));
            assert(!block_outside(t, k, cls));
        },
        RegEx::Alt(rs) => {
            let i = choose|i: int| 0 <= i < rs@.len() && (#[trigger] rs@[i]).is_point(p);
            lemma_point_breaks(rs@[i], t, p, k);
        },
        RegEx::Concat(rs) => {
            let i = choose|i: int| 0 <= i < rs@.len() && (#[trigger] rs@[i]).is_point(p);
            lemma_point_breaks(rs@[i], t, p, k);
        },
        RegEx::OneOrMore(x) => {
            lemma_point_breaks(*x, t, p, k);
        },
        RegEx::Optional(x) => {
            lemma_point_breaks(*x, t, p, k);
        },
    }
}

/// At an end point of a range of a class in normal form the class changes:
/// of the end point and the code point before it, exactly one belongs to it.
proof fn lemma_point_is_border(cls: Seq<UnicodeCharRange>, j: int, p: u32)
    requires
        ranges_normal(cls),
        0 <= j < cls.len(),
        cls[j].begin == p || cls[j].end == p,
    ensures
        ranges_contain(cls, p as int) != ranges_contain(cls, p - 1),
{
    assert(cls[j].wf());
    {
        {
            if cls[j].begin == p {
                assert(cls[j].contains(p as int));
                assert(ranges_contain(cls, p as int));
                if ranges_contain(cls, p - 1) {
                    let m = choose|m: int| 0 <= m < cls.len() && (#[trigger] cls[m]).contains(p - 1);
                    if m < j {
                        assert(cls[m].end < cls[j].begin);
                    } else if m > j {
                        assert(cls[j].end < cls[m].begin);
                    }
                }
            } else {
                assert(cls[j].contains(p - 1));
                assert(ranges_contain(cls, p - 1));
                if ranges_contain(cls, p as int) {
                    let m = choose|m: int| 0 <= m < cls.len() && (#[trigger] cls[m]).contains(p as int);
                    if m < j {
                        assert(cls[m].end < cls[j].begin);
                    } else if m > j {
                        assert(cls[j].end < cls[m].begin);
                    }
                }
            }
        }
    }
}

/// Split-point completeness. In a classified expression every atom names
/// blocks whose code points are exactly those of the class it was made from.
pub proof fn lemma_split_points_complete(r: RegEx<UnicodeCharClass>, t: Seq<u32>, out: RegEx<Vec<u32>>)
    requires
        r.atoms_wf(),
        split_table(t),
        forall|y: u32| r.is_point(y) ==> t.contains(y),
        r.classified(t, out),
    ensures
        r.same_code_points(t, out),
    decreases r,
{
    match r {
        RegEx::Atom(c) => {
            let v = out->Atom_0;
            lemma_class_complete(t, c@, v@);
        },
        RegEx::Alt(rs) => {
            let ss = out->Alt_0;
            assert forall|i: int| 0 <= i < rs@.len() implies (#[trigger] rs@[i]).same_code_points(
                t,
                ss@[i],
            ) by {
                lemma_split_points_complete(rs@[i], t, ss@[i]);
            }
        },
        RegEx::Concat(rs) => {
            let ss = out->Concat_0;
            assert forall|i: int| 0 <= i < rs@.len() implies (#[trigger] rs@[i]).same_code_points(
                t,
                ss@[i],
            ) by {
                lemma_split_points_complete(rs@[i], t, ss@[i]);
            }
        },
        RegEx::OneOrMore(x) => {
            lemma_split_points_complete(*x, t, *out->OneOrMore_0);
        },
        RegEx::Optional(x) => {
            lemma_split_points_complete(*x, t, *out->Optional_0);
        },
    }
}

/// The decimal forms of the numbers, separated by a comma and a space.
pub open spec fn numbers_text(v: Seq<u32>) -> Seq<char>
    decreases v.len(),
{
    if v.len() == 0 {
        Seq::empty()
    } else if v.len() == 1 {
        decimal(v[0] as nat)
    } else {
        numbers_text(v.drop_last()) + seq![',', ' '] + decimal(v.last() as nat)
    }
}

impl Pretty for Vec<u32> {
    type Context = ();

    /// A set of block indices is printed in braces.
    open spec fn pretty(&self, context: ()) -> Seq<char> {
        seq!['{'] + numbers_text(self@) + seq!['}']
    }

    fn pretty_fmt(&self, out: &mut String, context: ()) {
        push_char(out, '{');
        let ghost head = out@;
        let mut i: usize = 0;
        proof {
            assert(self@.subrange(0, 0) =~= Seq::empty());
            assert(out@ =~= head + numbers_text(self@.subrange(0, 0)));
        }
        while i < self.len()
            invariant
                i <= self@.len(),
                out@ == head + numbers_text(self@.subrange(0, i as int)),
            decreases self@.len() - i,
        {
            if i > 0 {
                push_char(out, ',');
                push_char(out, ' ');
            }
            push_decimal(out, self[i] as u64);
            proof {
                let longer = self@.subrange(0, i + 1);
                assert(longer.drop_last() =~= self@.subrange(0, i as int));
                assert(longer.last() == self@[i as int]);
                if i == 0 {
                    assert(self@.subrange(0, 0) =~= Seq::empty());
                    assert(out@ =~= head + numbers_text(longer));
                } else {
                    assert(out@ =~= head + numbers_text(longer));
                }
            }
            i += 1;
        }
        proof {
            assert(self@.subrange(0, self@.len() as int) =~= self@);
        }
        push_char(out, '}');
        proof {
            assert(head =~= old(out)@ + seq!['{']);
            assert(out@ =~= old(out)@ + self.pretty(()));
        }
    }
}

impl Pretty for UnicodeCharClass {
    type Context = ();

    open spec fn pretty(&self, context: ()) -> Seq<char> {
        class_text(self@)
    }

    fn pretty_fmt(&self, out: &mut String, context: ()) {
        let s = self.to_string();
        crate::text::push_str(out, s.as_str());
    }
}

/// The separator between alternatives, or between the parts of a
/// concatenation.
pub open spec fn separator(alt: bool) -> Seq<char> {
    if alt {
        seq![' ', '|', ' ']
    } else {
        seq![' ']
    }
}

/// The printed form of an expression in a context of precedence `n`: atoms
/// bind most tightly, then the postfix operators, then concatenation, then
/// alternation, and an operator that binds less tightly than its context
/// wants is put in parentheses.
pub open spec fn regex_text<A: Pretty<Context = ()>>(r: RegEx<A>, n: usize) -> Seq<char>
    decreases r, 0nat,
{
    match r {
        RegEx::Atom(a) => a.pretty(()),
        RegEx::Alt(rs) => if rs@.len() == 0 {
            Seq::empty()
        } else {
            bracket(0, n, '(') + joined_text(rs@, 0, true, rs@.len()) + bracket(0, n, ')')
        },
        RegEx::Concat(rs) => if rs@.len() == 0 {
            Seq::empty()
        } else {
            bracket(1, n, '(') + joined_text(rs@, 1, false, rs@.len()) + bracket(1, n, ')')
        },
        RegEx::OneOrMore(x) => bracket(2, n, '(') + regex_text(*x, 2) + bracket(2, n, ')') + seq!['+'],
        RegEx::Optional(x) => bracket(2, n, '(') + regex_text(*x, 2) + bracket(2, n, ')') + seq!['?'],
    }
}

/// The printed forms of the first `upto` expressions, each in context `k`,
/// with the separator between them.
pub open spec fn joined_text<A: Pretty<Context = ()>>(
    rs: Seq<RegEx<A>>,
    k: usize,
    alt: bool,
    upto: nat,
) -> Seq<char>
    decreases rs, upto,
{
    if upto == 0 || upto > rs.len() {
        Seq::empty()
    } else if upto == 1 {
        regex_text(rs[0], k)
    } else {
        joined_text(rs, k, alt, (upto - 1) as nat) + separator(alt) + regex_text(rs[upto - 1], k)
    }
}

fn write_joined<A: Pretty<Context = ()>>(rs: &Vec<RegEx<A>>, out: &mut String, k: usize, alt: bool)
    ensures
        final(out)@ == old(out)@ + joined_text(rs@, k, alt, rs@.len()),
    decreases rs,
{
    let mut i: usize = 0;
    proof {
        assert(out@ =~= old(out)@ + joined_text(rs@, k, alt, 0));
    }
    while i < rs.len()
        invariant
            i <= rs@.len(),
            out@ == old(out)@ + joined_text(rs@, k, alt, i as nat),
        decreases rs@.len() - i,
    {
        let ghost before = out@;
        if i > 0 {
            if alt {
                push_char(out, ' ');
                push_char(out, '|');
                push_char(out, ' ');
            } else {
                push_char(out, ' ');
            }
        }
        let ghost middle = out@;
        rs[i].pretty_fmt(out, k);
        proof {
            if i == 0 {
                assert(middle =~= before);
                assert(joined_text(rs@, k, alt, 0) =~= Seq::empty());
                assert(out@ =~= old(out)@ + joined_text(rs@, k, alt, 1));
            } else {
                assert(middle =~= before + separator(alt));
                assert(out@ =~= old(out)@ + joined_text(rs@, k, alt, (i + 1) as nat));
            }
        }
        i += 1;
    }
}

impl<A: Pretty<Context = ()>> Pretty for RegEx<A> {
    type Context = usize;

    open spec fn pretty(&self, n: usize) -> Seq<char> {
        regex_text(*self, n)
    }

    fn pretty_fmt(&self, out: &mut String, n: usize)
        decreases self,
    {
        match self {
            RegEx::Atom(a) => {
                a.pretty_fmt(out, ());
            },
            RegEx::Alt(rs) => {
                if rs.len() > 0 {
                    write_bracket(out, 0, n, '(');
                    write_joined(rs, out, 0, true);
                    write_bracket(out, 0, n, ')');
                    proof {
                        assert(out@ =~= old(out)@ + regex_text(*self, n));
                    }
                } else {
                    proof {
                        assert(out@ =~= old(out)@ + regex_text(*self, n));
                    }
                }
            },
            RegEx::Concat(rs) => {
                if rs.len() > 0 {
                    write_bracket(out, 1, n, '(');
                    write_joined(rs, out, 1, false);
                    write_bracket(out, 1, n, ')');
                    proof {
                        assert(out@ =~= old(out)@ + regex_text(*self, n));
                    }
                } else {
                    proof {
                        assert(out@ =~= old(out)@ + regex_text(*self, n));
                    }
                }
            },
            RegEx::OneOrMore(x) => {
                write_bracket(out, 2, n, '(');
                x.pretty_fmt(out, 2);
                write_bracket(out, 2, n, ')');
                push_char(out, '+');
                proof {
                    assert(out@ =~= old(out)@ + regex_text(*self, n));
                }
            },
            RegEx::Optional(x) => {
                write_bracket(out, 2, n, '(');
                x.pretty_fmt(out, 2);
                write_bracket(out, 2, n, ')');
                push_char(out, '?');
                proof {
                    assert(out@ =~= old(out)@ + regex_text(*self, n));
                }
            },
        }
    }
}

impl<A: Pretty<Context = ()>> RegEx<A> {
    /// The printed form of the expression.
    pub fn to_string(&self) -> (s: String)
        ensures
            s@ == regex_text(*self, 0),
    {
        let mut s = String::new();
        self.pretty_fmt(&mut s, 0);
        proof {
            assert(s@ =~= regex_text(*self, 0));
        }
        s
    }
}

} // verus!
