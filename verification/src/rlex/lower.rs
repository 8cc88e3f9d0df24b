//! From syntax to regular expressions over character classes. Class names
//! that are unknown are collected, all of them, before the lowering fails.

use vstd::prelude::*;
use vstd::string::StrSliceExecFns;
use crate::rlex::ast::char_class::{UnicodeCharClass, UnicodeCharRange};
use crate::rlex::ast::RegEx;
use crate::rlex::syntax::{Alt, Atom, Concat, Expr, Repeat};
use crate::rlex::unicode::{
    class_known,
    lemma_resolved_unique,
    resolve_class,
    resolved,
    UnicodeTables,
    UnknownProperty,
};

verus! {

/// The range that holds the single character `c`.
pub open spec fn char_range(c: char) -> UnicodeCharRange {
    UnicodeCharRange { begin: c as u32, end: (c as u32 + 1) as u32 }
}

/// What identifies an unknown class name: its spelling and its place.
pub open spec fn error_key(e: UnknownProperty) -> (Seq<char>, usize) {
    (e.original@, e.span)
}

/// The keys of a list of errors.
pub open spec fn error_keys(es: Seq<UnknownProperty>) -> Seq<(Seq<char>, usize)> {
    Seq::new(es.len(), |i: int| error_key(es[i]))
}

/// The unknown class names of an atom, from left to right.
pub open spec fn unknown_atom(a: Atom, t: UnicodeTables) -> Seq<(Seq<char>, usize)>
    decreases a,
{
    match a {
        Atom::Class(c) => if class_known(t, c.class_name@) {
            Seq::empty()
        } else {
            seq![(c.class_name@, c.span)]
        },
        Atom::Paren { expr } => unknown_expr(*expr, t),
        _ => Seq::empty(),
    }
}

/// The unknown class names of a repetition.
pub open spec fn unknown_repeat(r: Repeat, t: UnicodeTables) -> Seq<(Seq<char>, usize)>
    decreases r,
{
    match r {
        Repeat::Once(a) => unknown_atom(a, t),
        Repeat::Many(a) => unknown_atom(a, t),
        Repeat::OneOrMore(a) => unknown_atom(a, t),
        Repeat::Optional(a) => unknown_atom(a, t),
    }
}

/// The unknown class names of the first `n` repetitions.
pub open spec fn unknown_repeats(items: Seq<Repeat>, n: nat, t: UnicodeTables) -> Seq<(Seq<char>, usize)>
    decreases items, n,
{
    if n == 0 || n > items.len() {
        Seq::empty()
    } else {
        unknown_repeats(items, (n - 1) as nat, t) + unknown_repeat(items[n - 1], t)
    }
}

/// The unknown class names of the first `n` concatenations.
pub open spec fn unknown_concats(variants: Seq<Concat>, n: nat, t: UnicodeTables) -> Seq<(Seq<char>, usize)>
    decreases variants, n,
{
    if n == 0 || n > variants.len() {
        Seq::empty()
    } else {
        unknown_concats(variants, (n - 1) as nat, t) + unknown_repeats(
            variants[n - 1].items@,
            variants[n - 1].items@.len(),
            t,
        )
    }
}

/// The unknown class names of an expression, from left to right.
pub open spec fn unknown_expr(e: Alt, t: UnicodeTables) -> Seq<(Seq<char>, usize)>
    decreases e,
{
    unknown_concats(e.variants@, e.variants@.len(), t)
}

/// `r` is the atom of the class that holds the single character `c`.
pub open spec fn is_char_atom(r: RegEx<UnicodeCharClass>, c: char) -> bool {
    r matches RegEx::Atom(k) && k@ == seq![char_range(c)]
}

/// `r` is the expression for the string `s`: its characters in a row, or
/// the one character alone.
pub open spec fn lowered_string(s: Seq<char>, r: RegEx<UnicodeCharClass>) -> bool {
    if s.len() == 1 {
        is_char_atom(r, s[0])
    } else {
        r matches RegEx::Concat(rs) && rs@.len() == s.len() && forall|i: int|
            0 <= i < s.len() ==> is_char_atom(#[trigger] rs@[i], s[i])
    }
}

/// `r` is the expression for the atom `a`.
pub open spec fn lowered_atom(a: Atom, t: UnicodeTables, r: RegEx<UnicodeCharClass>) -> bool
    decreases a,
{
    match a {
        Atom::Char(c) => is_char_atom(r, c),
        Atom::String(s) => lowered_string(s@, r),
        Atom::Range(cr) => r matches RegEx::Atom(k) && k@ == if cr.begin as u32 <= cr.end as u32 {
            seq![UnicodeCharRange { begin: cr.begin as u32, end: (cr.end as u32 + 1) as u32 }]
        } else {
            Seq::<UnicodeCharRange>::empty()
        },
        Atom::Class(c) => r matches RegEx::Atom(k) && resolved(t, c.class_name@, k@),
        Atom::Paren { expr } => lowered_expr(*expr, t, r),
    }
}

/// `r` is the expression for the repetition `rep`; zero or more is written
/// as an optional one or more.
pub open spec fn lowered_repeat(rep: Repeat, t: UnicodeTables, r: RegEx<UnicodeCharClass>) -> bool
    decreases rep,
{
    match rep {
        Repeat::Once(a) => lowered_atom(a, t, r),
        Repeat::Optional(a) => r matches RegEx::Optional(x) && lowered_atom(a, t, *x),
        Repeat::OneOrMore(a) => r matches RegEx::OneOrMore(x) && lowered_atom(a, t, *x),
        Repeat::Many(a) => r matches RegEx::Optional(x) && *x matches RegEx::OneOrMore(y) && lowered_atom(
            a,
            t,
            *y,
        ),
    }
}

/// `r` is the expression for the concatenation `c`; a single item stands
/// for itself.
pub open spec fn lowered_concat(c: Concat, t: UnicodeTables, r: RegEx<UnicodeCharClass>) -> bool
    decreases c,
{
    if c.items@.len() == 1 {
        lowered_repeat(c.items@[0], t, r)
    } else {
        r matches RegEx::Concat(rs) && rs@.len() == c.items@.len() && forall|i: int|
            0 <= i < c.items@.len() ==> lowered_repeat(c.items@[i], t, #[trigger] rs@[i])
    }
}

/// `r` is the expression for `e`: no variant at all is the empty class, a
/// single variant stands for itself.
pub open spec fn lowered_expr(e: Alt, t: UnicodeTables, r: RegEx<UnicodeCharClass>) -> bool
    decreases e,
{
    if e.variants@.len() == 0 {
        r matches RegEx::Atom(k) && k@ == Seq::<UnicodeCharRange>::empty()
    } else if e.variants@.len() == 1 {
        lowered_concat(e.variants@[0], t, r)
    } else {
        r matches RegEx::Alt(rs) && rs@.len() == e.variants@.len() && forall|i: int|
            0 <= i < e.variants@.len() ==> lowered_concat(e.variants@[i], t, #[trigger] rs@[i])
    }
}

/// The expression for a string literal.
pub fn lower_string(s: &str) -> (r: RegEx<UnicodeCharClass>)
    ensures
        lowered_string(s@, r),
{
    let n = s.unicode_len();
    let mut xs: Vec<RegEx<UnicodeCharClass>> = Vec::new();
    let mut i: usize = 0;
    while i < n
        invariant
            i <= n,
            n == s@.len(),
            xs@.len() == i,
            forall|k: int| 0 <= k < i ==> is_char_atom(#[trigger] xs@[k], s@[k]),
        decreases n - i,
    {
        let c = s.get_char(i);
        xs.push(RegEx::Atom(UnicodeCharClass::from_char(c)));
        i += 1;
    }
    if n == 1 {
        let only = xs.pop().unwrap();
        only
    } else {
        RegEx::Concat(xs)
    }
}

/// The expression for an atom. Unknown class names are added to `errors`,
/// and `None` is returned if there was one.
pub fn lower_atom(a: &Atom, tables: &UnicodeTables, errors: &mut Vec<UnknownProperty>) -> (r: Option<
    RegEx<UnicodeCharClass>,
>)
    requires
        tables.wf(),
    ensures
        error_keys(final(errors)@) == error_keys(old(errors)@) + unknown_atom(*a, *tables),
        r.is_some() == (unknown_atom(*a, *tables).len() == 0),
        match r {
            Some(x) => lowered_atom(*a, *tables, x),
            None => true,
        },
    decreases a,
{
    match a {
        Atom::Char(c) => {
            proof {
                assert(error_keys(errors@) =~= error_keys(old(errors)@) + unknown_atom(*a, *tables));
            }
            Some(RegEx::Atom(UnicodeCharClass::from_char(*c)))
        },
        Atom::String(s) => {
            proof {
                assert(error_keys(errors@) =~= error_keys(old(errors)@) + unknown_atom(*a, *tables));
            }
            Some(lower_string(s.as_str()))
        },
        Atom::Range(cr) => {
            proof {
                assert(error_keys(errors@) =~= error_keys(old(errors)@) + unknown_atom(*a, *tables));
            }
            if cr.begin as u32 <= cr.end as u32 {
                Some(RegEx::Atom(UnicodeCharClass::from_single_range(UnicodeCharRange::new(cr.begin, cr.end))))
            } else {
                Some(RegEx::Atom(UnicodeCharClass::empty()))
            }
        },
        Atom::Class(c) => match resolve_class(c.class_name.as_str(), c.span, tables) {
            Ok(cls) => {
                proof {
                    assert(error_keys(errors@) =~= error_keys(old(errors)@) + unknown_atom(*a, *tables));
                }
                Some(RegEx::Atom(cls))
            },
            Err(e) => {
                errors.push(e);
                proof {
                    assert(error_keys(errors@) =~= error_keys(old(errors)@) + unknown_atom(*a, *tables));
                }
                None
            },
        },
        Atom::Paren { expr } => lower_expr(expr, tables, errors),
    }
}

/// The expression for a repetition.
pub fn lower_repeat(rep: &Repeat, tables: &UnicodeTables, errors: &mut Vec<UnknownProperty>) -> (r: Option<
    RegEx<UnicodeCharClass>,
>)
    requires
        tables.wf(),
    ensures
        error_keys(final(errors)@) == error_keys(old(errors)@) + unknown_repeat(*rep, *tables),
        r.is_some() == (unknown_repeat(*rep, *tables).len() == 0),
        match r {
            Some(x) => lowered_repeat(*rep, *tables, x),
            None => true,
        },
    decreases rep,
{
    match rep {
        Repeat::Once(a) => lower_atom(a, tables, errors),
        Repeat::Optional(a) => match lower_atom(a, tables, errors) {
            Some(x) => Some(RegEx::Optional(Box::new(x))),
            None => None,
        },
        Repeat::OneOrMore(a) => match lower_atom(a, tables, errors) {
            Some(x) => Some(RegEx::OneOrMore(Box::new(x))),
            None => None,
        },
        Repeat::Many(a) => match lower_atom(a, tables, errors) {
            Some(x) => Some(RegEx::Optional(Box::new(RegEx::OneOrMore(Box::new(x))))),
            None => None,
        },
    }
}

/// The expression for a concatenation.
pub fn lower_concat(c: &Concat, tables: &UnicodeTables, errors: &mut Vec<UnknownProperty>) -> (r: Option<
    RegEx<UnicodeCharClass>,
>)
    requires
        tables.wf(),
    ensures
        error_keys(final(errors)@) == error_keys(old(errors)@) + unknown_repeats(
            c.items@,
            c.items@.len(),
            *tables,
        ),
        r.is_some() == (unknown_repeats(c.items@, c.items@.len(), *tables).len() == 0),
        match r {
            Some(x) => lowered_concat(*c, *tables, x),
            None => true,
        },
    decreases c,
{
    let mut xs: Vec<RegEx<UnicodeCharClass>> = Vec::new();
    let mut failed = false;
    let mut i: usize = 0;
    proof {
        assert(error_keys(errors@) =~= error_keys(old(errors)@) + unknown_repeats(c.items@, 0, *tables));
    }
    while i < c.items.len()
        invariant
            i <= c.items@.len(),
            tables.wf(),
            error_keys(errors@) == error_keys(old(errors)@) + unknown_repeats(c.items@, i as nat, *tables),
            failed == (unknown_repeats(c.items@, i as nat, *tables).len() > 0),
            !failed ==> xs@.len() == i && forall|k: int|
                0 <= k < i ==> lowered_repeat(c.items@[k], *tables, #[trigger] xs@[k]),
        decreases c.items@.len() - i,
    {
        let ghost before = errors@;
        match lower_repeat(&c.items[i], tables, errors) {
            Some(x) => {
                if !failed {
                    xs.push(x);
                }
            },
            None => {
                failed = true;
            },
        }
        proof {
            assert(error_keys(errors@) =~= error_keys(old(errors)@) + unknown_repeats(
                c.items@,
                (i + 1) as nat,
                *tables,
            ));
        }
        i += 1;
    }
    if failed {
        None
    } else if xs.len() == 1 {
        xs.pop()
    } else {
        Some(RegEx::Concat(xs))
    }
}

/// The expression for an expression of the syntax.
pub fn lower_expr(e: &Expr, tables: &UnicodeTables, errors: &mut Vec<UnknownProperty>) -> (r: Option<
    RegEx<UnicodeCharClass>,
>)
    requires
        tables.wf(),
    ensures
        error_keys(final(errors)@) == error_keys(old(errors)@) + unknown_expr(*e, *tables),
        r.is_some() == (unknown_expr(*e, *tables).len() == 0),
        match r {
            Some(x) => lowered_expr(*e, *tables, x),
            None => true,
        },
    decreases e,
{
    let mut xs: Vec<RegEx<UnicodeCharClass>> = Vec::new();
    let mut failed = false;
    let mut i: usize = 0;
    proof {
        assert(error_keys(errors@) =~= error_keys(old(errors)@) + unknown_concats(e.variants@, 0, *tables));
    }
    while i < e.variants.len()
        invariant
            i <= e.variants@.len(),
            tables.wf(),
            error_keys(errors@) == error_keys(old(errors)@) + unknown_concats(e.variants@, i as nat, *tables),
            failed == (unknown_concats(e.variants@, i as nat, *tables).len() > 0),
            !failed ==> xs@.len() == i && forall|k: int|
                0 <= k < i ==> lowered_concat(e.variants@[k], *tables, #[trigger] xs@[k]),
        decreases e.variants@.len() - i,
    {
        match lower_concat(&e.variants[i], tables, errors) {
            Some(x) => {
                if !failed {
                    xs.push(x);
                }
            },
            None => {
                failed = true;
            },
        }
        proof {
            assert(error_keys(errors@) =~= error_keys(old(errors)@) + unknown_concats(
                e.variants@,
                (i + 1) as nat,
                *tables,
            ));
        }
        i += 1;
    }
    if failed {
        None
    } else if xs.len() == 0 {
        Some(RegEx::Atom(UnicodeCharClass::empty()))
    } else if xs.len() == 1 {
        xs.pop()
    } else {
        Some(RegEx::Alt(xs))
    }
}


/// Two expressions for one atom have the same end points.
pub proof fn lemma_atom_points(
    a: Atom,
    t: UnicodeTables,
    x: RegEx<UnicodeCharClass>,
    z: RegEx<UnicodeCharClass>,
    y: u32,
)
    requires
        t.wf(),
        lowered_atom(a, t, x),
        lowered_atom(a, t, z),
        x.is_point(y),
    ensures
        z.is_point(y),
    decreases a,
{
    match a {
        Atom::Char(c) => {},
        Atom::String(s) => {
            if s@.len() != 1 {
                let xs = x->Concat_0;
                let zs = z->Concat_0;
                let i = choose|i: int| 0 <= i < xs@.len() && (#[trigger] xs@[i]).is_point(y);
                assert(is_char_atom(xs@[i], s@[i]));
                assert(is_char_atom(zs@[i], s@[i]));
                assert(zs@[i].is_point(y));
            }
        },
        Atom::Range(_) => {},
        Atom::Class(c) => {
            lemma_resolved_unique(t, c.class_name@, x->Atom_0@, z->Atom_0@);
        },
        Atom::Paren { expr } => {
            lemma_lowered_points(*expr, t, x, z, y);
        },
    }
}

/// Two expressions for one repetition have the same end points.
pub proof fn lemma_repeat_points(
    rep: Repeat,
    t: UnicodeTables,
    x: RegEx<UnicodeCharClass>,
    z: RegEx<UnicodeCharClass>,
    y: u32,
)
    requires
        t.wf(),
        lowered_repeat(rep, t, x),
        lowered_repeat(rep, t, z),
        x.is_point(y),
    ensures
        z.is_point(y),
    decreases rep,
{
    match rep {
        Repeat::Once(a) => lemma_atom_points(a, t, x, z, y),
        Repeat::Optional(a) => lemma_atom_points(a, t, *x->Optional_0, *z->Optional_0, y),
        Repeat::OneOrMore(a) => lemma_atom_points(a, t, *x->OneOrMore_0, *z->OneOrMore_0, y),
        Repeat::Many(a) => {
            let x1 = *x->Optional_0;
            let z1 = *z->Optional_0;
            assert(x1.is_point(y));
            let x2 = *x1->OneOrMore_0;
            let z2 = *z1->OneOrMore_0;
            assert(x2.is_point(y));
            lemma_atom_points(a, t, x2, z2, y);
            assert(z1.is_point(y));
        },
    }
}

/// Two expressions for one concatenation have the same end points.
pub proof fn lemma_concat_points(
    c: Concat,
    t: UnicodeTables,
    x: RegEx<UnicodeCharClass>,
    z: RegEx<UnicodeCharClass>,
    y: u32,
)
    requires
        t.wf(),
        lowered_concat(c, t, x),
        lowered_concat(c, t, z),
        x.is_point(y),
    ensures
        z.is_point(y),
    decreases c,
{
    if c.items@.len() == 1 {
        lemma_repeat_points(c.items@[0], t, x, z, y);
    } else {
        let xs = x->Concat_0;
        let zs = z->Concat_0;
        let i = choose|i: int| 0 <= i < xs@.len() && (#[trigger] xs@[i]).is_point(y);
        assert(lowered_repeat(c.items@[i], t, xs@[i]));
        assert(lowered_repeat(c.items@[i], t, zs@[i]));
        lemma_repeat_points(c.items@[i], t, xs@[i], zs@[i], y);
    }
}

/// Two expressions for one expression of the syntax have the same end
/// points.
pub proof fn lemma_lowered_points(
    e: Alt,
    t: UnicodeTables,
    x: RegEx<UnicodeCharClass>,
    z: RegEx<UnicodeCharClass>,
    y: u32,
)
    requires
        t.wf(),
        lowered_expr(e, t, x),
        lowered_expr(e, t, z),
        x.is_point(y),
    ensures
        z.is_point(y),
    decreases e,
{
    if e.variants@.len() == 0 {
    } else if e.variants@.len() == 1 {
        lemma_concat_points(e.variants@[0], t, x, z, y);
    } else {
        let xs = x->Alt_0;
        let zs = z->Alt_0;
        let i = choose|i: int| 0 <= i < xs@.len() && (#[trigger] xs@[i]).is_point(y);
        assert(lowered_concat(e.variants@[i], t, xs@[i]));
        assert(lowered_concat(e.variants@[i], t, zs@[i]));
        lemma_concat_points(e.variants@[i], t, xs@[i], zs@[i], y);
    }
}

} // verus!
