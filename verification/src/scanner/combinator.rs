//! Rules of the scanner put together: a rule that is undone where it
//! fails, and rules that are repeated.
//!
//! A rule is a function on a scanner. What is asked of every rule here is
//! that it can be run on every scanner that is in order, and that it
//! leaves a scanner that is in order and has come from where the scanner
//! was. Of a rule that is repeated more is asked: where its outcome is a
//! right, it has read a character at least.

use vstd::prelude::*;
use crate::scanner::Scanner;
use crate::utils::Either;

verus! {

/// `out` is what `join` may give when it is handed the items one after the
/// other, beginning with `init`.
pub open spec fn folded<A, X, J: Fn(A, X) -> A>(join: J, init: A, items: Seq<X>, out: A) -> bool
    decreases items.len(),
{
    if items.len() == 0 {
        out == init
    } else {
        exists|mid: A|
            folded(join, init, items.drop_last(), mid) && #[trigger] call_ensures(join, (mid, items.last()), out)
    }
}

/// There is one state more than there are items: the state before each
/// item, and the state after the last.
pub open spec fn strung<S, X>(states: Seq<S>, items: Seq<X>) -> bool {
    states.len() == items.len() + 1
}

/// There is one state more than there are items, and one state between
/// for each item.
pub open spec fn spaced<S, X>(states: Seq<S>, mids: Seq<S>, items: Seq<X>) -> bool {
    states.len() == items.len() + 1 && mids.len() == items.len()
}

/// `i` is the number of an item.
pub open spec fn has_item<X>(items: Seq<X>, i: int) -> bool {
    0 <= i < items.len()
}

/// What is folded from what `join` made of a first item is folded from the
/// first item on.
pub proof fn lemma_folded_front<A, X, J: Fn(A, X) -> A>(join: J, init: A, first: X, next: A, items: Seq<X>, out: A)
    requires
        call_ensures(join, (init, first), next),
        folded(join, next, items, out),
    ensures
        folded(join, init, seq![first] + items, out),
    decreases items.len(),
{
    let all = seq![first] + items;
    if items.len() == 0 {
        assert(all.drop_last() =~= Seq::<X>::empty());
        assert(folded(join, init, all.drop_last(), init));
        assert(all.last() == first);
    } else {
        let mid = choose|mid: A|
            folded(join, next, items.drop_last(), mid) && #[trigger] call_ensures(join, (mid, items.last()), out);
        lemma_folded_front(join, init, first, next, items.drop_last(), mid);
        assert(all.drop_last() =~= seq![first] + items.drop_last());
        assert(all.last() == items.last());
    }
}

impl Scanner {
    /// Runs the rule `f`; where its outcome is a left, the scanner is
    /// brought back to where it was. The outcome is that of some run of
    /// `f` on the scanner as it was.
    pub fn anchored<R: Either, F: FnOnce(&mut Scanner) -> R>(&mut self, f: F) -> (r: R)
        requires
            old(self).wf(),
            forall|s: &mut Scanner| (*s).wf() ==> call_requires(f, (s,)),
            forall|s: &mut Scanner, out: R|
                call_ensures(f, (s,), out) ==> (*final(s)).wf() && (*final(s)).follows(&*s),
        ensures
            final(self).wf(),
            final(self).follows(old(self)),
            exists|s: &mut Scanner, out: R|
                *s == *old(self) && #[trigger] call_ensures(f, (s,), out) && r.spec_result() == out.spec_result()
                    && match out.spec_result() {
                    Ok(_) => *final(self) == *final(s),
                    Err(_) => old(self).same(final(self)),
                },
    {
        let a = self.anchor();
        let out = f(self);
        match out.into_result() {
            Ok(res) => Either::right(res),
            Err(err) => {
                self.revert(&a);
                proof {
                    assert(self.reports().take(old(self).reports().len() as int) =~= old(self).reports());
                }
                Either::left(err)
            },
        }
    }

    /// Runs the rule `f` as often as its outcome is a right, and hands
    /// each such outcome to `join`, together with `init` and what `join`
    /// made of it before. Where `f` fails at last, it is undone: the
    /// scanner is left where `f` fails.
    pub fn many<ET: Either, EU: Either<Left = ET::Left>, F: Fn(&mut Scanner) -> ET, J: Fn(EU::Right, ET::Right) -> EU::Right>(
        &mut self,
        f: &F,
        init: EU::Right,
        join: &J,
    ) -> (r: EU)
        requires
            old(self).wf(),
            forall|s: &mut Scanner| (*s).wf() ==> call_requires(*f, (s,)),
            forall|s: &mut Scanner, out: ET|
                call_ensures(*f, (s,), out) ==> (*final(s)).wf() && (*final(s)).follows(&*s) && (
                out.spec_result().is_ok() ==> (*final(s)).consumed() > (*s).consumed()),
            forall|acc: EU::Right, x: ET::Right| call_requires(*join, (acc, x)),
        ensures
            final(self).wf(),
            final(self).follows(old(self)),
            r.spec_result().is_ok(),
            exists|s: &mut Scanner, out: ET|
                (*s).same(final(self)) && #[trigger] call_ensures(*f, (s,), out) && out.spec_result().is_err(),
            exists|states: Seq<Scanner>, items: Seq<ET::Right>|
                #[trigger] strung(states, items) && states[0] == *old(self) && states.last().same(final(self)) && (
                forall|i: int|
                    #[trigger] has_item(items, i) ==> exists|s: &mut Scanner, out: ET|
                        #[trigger] call_ensures(*f, (s,), out) && *s == states[i] && *final(s) == states[i + 1]
                            && out.spec_result() == Ok::<ET::Right, ET::Left>(items[i])) && folded(
                    *join,
                    init,
                    items,
                    r.spec_result()->Ok_0,
                ),
    {
        let mut res = init;
        let ghost mut states: Seq<Scanner> = seq![*self];
        let ghost mut items: Seq<ET::Right> = Seq::empty();
        proof {
            assert(self.reports().take(self.reports().len() as int) =~= self.reports());
        }
        loop
            invariant_except_break
                states.last() == *self,
            invariant
                self.wf(),
                self.follows(old(self)),
                strung(states, items),
                states[0] == *old(self),
                forall|i: int|
                    #[trigger] has_item(items, i) ==> exists|s: &mut Scanner, out: ET|
                        #[trigger] call_ensures(*f, (s,), out) && *s == states[i] && *final(s) == states[i + 1]
                            && out.spec_result() == Ok::<ET::Right, ET::Left>(items[i]),
                folded(*join, init, items, res),
                forall|s: &mut Scanner| (*s).wf() ==> call_requires(*f, (s,)),
                forall|s: &mut Scanner, out: ET|
                    call_ensures(*f, (s,), out) ==> (*final(s)).wf() && (*final(s)).follows(&*s) && (
                    out.spec_result().is_ok() ==> (*final(s)).consumed() > (*s).consumed()),
                forall|acc: EU::Right, x: ET::Right| call_requires(*join, (acc, x)),
            ensures
                self.wf(),
                self.follows(old(self)),
                exists|s: &mut Scanner, out: ET|
                    (*s).same(self) && #[trigger] call_ensures(*f, (s,), out) && out.spec_result().is_err(),
                strung(states, items),
                states[0] == *old(self),
                states.last().same(self),
                forall|i: int|
                    #[trigger] has_item(items, i) ==> exists|s: &mut Scanner, out: ET|
                        #[trigger] call_ensures(*f, (s,), out) && *s == states[i] && *final(s) == states[i + 1]
                            && out.spec_result() == Ok::<ET::Right, ET::Left>(items[i]),
                folded(*join, init, items, res),
            decreases self.source().len() - self.consumed(),
        {
            let ghost before = *self;
            let ghost states_before = states;
            let ghost items_before = items;
            let ghost res_before = res;
            let a = self.anchor();
            let out = f(self);
            proof {
                self.lemma_read_within();
                assert(self.reports().take(old(self).reports().len() as int) =~= old(self).reports()) by {
                    assert(before.reports().take(old(self).reports().len() as int) == old(self).reports());
                    assert(self.reports().take(before.reports().len() as int) == before.reports());
                }
            }
            match out.into_result() {
                Ok(x) => {
                    res = join(res, x);
                    proof {
                        states = states.push(*self);
                        items = items.push(x);
                        assert(items.drop_last() =~= items_before);
                        assert(items.last() == x);
                        assert(folded(*join, init, items.drop_last(), res_before));
                        assert(call_ensures(*join, (res_before, x), res));
                        assert(folded(*join, init, items, res));
                        assert forall|i: int| #[trigger] has_item(items, i) implies exists|s: &mut Scanner, out: ET|
                            #[trigger] call_ensures(*f, (s,), out) && *s == states[i] && *final(s) == states[i + 1]
                                && out.spec_result() == Ok::<ET::Right, ET::Left>(items[i]) by {
                            if i < items_before.len() {
                                assert(has_item(items_before, i));
                                assert(states[i] == states_before[i]);
                                assert(states[i + 1] == states_before[i + 1]);
                                assert(items[i] == items_before[i]);
                            }
                        }
                    }
                },
                Err(_) => {
                    self.revert(&a);
                    proof {
                        assert(self.reports().take(old(self).reports().len() as int) =~= old(self).reports());
                    }
                    break ;
                },
            }
        }
        Either::right(res)
    }

    /// Runs the rule `f` once, and then as often as its outcome is a
    /// right, and hands each such outcome to `join`. The first run is not
    /// undone: where it fails, its left is the outcome, and the scanner
    /// is where the run left it.
    pub fn some<ET: Either, EU: Either<Left = ET::Left>, F: Fn(&mut Scanner) -> ET, J: Fn(EU::Right, ET::Right) -> EU::Right>(
        &mut self,
        f: &F,
        init: EU::Right,
        join: &J,
    ) -> (r: EU)
        requires
            old(self).wf(),
            forall|s: &mut Scanner| (*s).wf() ==> call_requires(*f, (s,)),
            forall|s: &mut Scanner, out: ET|
                call_ensures(*f, (s,), out) ==> (*final(s)).wf() && (*final(s)).follows(&*s) && (
                out.spec_result().is_ok() ==> (*final(s)).consumed() > (*s).consumed()),
            forall|acc: EU::Right, x: ET::Right| call_requires(*join, (acc, x)),
        ensures
            final(self).wf(),
            final(self).follows(old(self)),
            exists|s: &mut Scanner, out: ET|
                *s == *old(self) && #[trigger] call_ensures(*f, (s,), out) && r.spec_result().is_ok()
                    == out.spec_result().is_ok() && (out.spec_result().is_err() ==> *final(self) == *final(s)
                    && r.spec_result() == Err::<EU::Right, ET::Left>(out.spec_result()->Err_0)),
            r.spec_result().is_ok() ==> exists|states: Seq<Scanner>, items: Seq<ET::Right>|
                #[trigger] strung(states, items) && items.len() >= 1 && states[0] == *old(self)
                    && states.last().same(final(self)) && (forall|i: int|
                    #[trigger] has_item(items, i) ==> exists|s: &mut Scanner, out: ET|
                        #[trigger] call_ensures(*f, (s,), out) && *s == states[i] && *final(s) == states[i + 1]
                            && out.spec_result() == Ok::<ET::Right, ET::Left>(items[i])) && folded(
                    *join,
                    init,
                    items,
                    r.spec_result()->Ok_0,
                ),
            r.spec_result().is_ok() ==> exists|s: &mut Scanner, out: ET|
                (*s).same(final(self)) && #[trigger] call_ensures(*f, (s,), out) && out.spec_result().is_err(),
    {
        let first = f(self);
        match first.into_result() {
            Ok(x) => {
                let ghost mid = *self;
                let acc = join(init, x);
                let r: EU = self.many::<ET, EU, F, J>(f, acc, join);
                proof {
                    assert(self.reports().take(old(self).reports().len() as int) =~= old(self).reports()) by {
                        assert(mid.reports().take(old(self).reports().len() as int) == old(self).reports());
                        assert(self.reports().take(mid.reports().len() as int) == mid.reports());
                    }
                    let (later, more) = choose|states: Seq<Scanner>, items: Seq<ET::Right>|
                        #[trigger] strung(states, items) && states[0] == mid && states.last().same(self) && (forall|
                            i: int,
                        |
                            #[trigger] has_item(items, i) ==> exists|s: &mut Scanner, out: ET|
                                #[trigger] call_ensures(*f, (s,), out) && *s == states[i] && *final(s) == states[i
                                    + 1] && out.spec_result() == Ok::<ET::Right, ET::Left>(items[i])) && folded(
                            *join,
                            acc,
                            items,
                            r.spec_result()->Ok_0,
                        );
                    let states = seq![*old(self)] + later;
                    let items = seq![x] + more;
                    lemma_folded_front(*join, init, x, acc, more, r.spec_result()->Ok_0);
                    assert(states.last() == later.last());
                    assert forall|i: int| #[trigger] has_item(items, i) implies exists|s: &mut Scanner, out: ET|
                        #[trigger] call_ensures(*f, (s,), out) && *s == states[i] && *final(s) == states[i + 1]
                            && out.spec_result() == Ok::<ET::Right, ET::Left>(items[i]) by {
                        if i > 0 {
                            assert(has_item(more, i - 1));
                            assert(states[i] == later[i - 1]);
                            assert(states[i + 1] == later[i]);
                            assert(items[i] == more[i - 1]);
                        } else {
                            assert(states[1] == later[0]);
                        }
                    }
                    assert(strung(states, items));
                }
                r
            },
            Err(e) => Either::left(e),
        }
    }

    /// Runs the rule `f` once, and then the rules `g` and `f` one after
    /// the other as often as the outcomes of both are rights: items with
    /// something between them. Each right outcome of `f` is handed to
    /// `join`. The first run of `f` is not undone; a `g` without an `f`
    /// behind it is.
    pub fn sep_by<ET: Either, EU: Either<Left = ET::Left>, ER: Either<Left = ET::Left>, F: Fn(&mut Scanner) -> ET, G: Fn(&mut Scanner) -> ER, J: Fn(EU::Right, ET::Right) -> EU::Right>(
        &mut self,
        f: &F,
        g: &G,
        init: EU::Right,
        join: &J,
    ) -> (r: EU)
        requires
            old(self).wf(),
            forall|s: &mut Scanner| (*s).wf() ==> call_requires(*f, (s,)),
            forall|s: &mut Scanner| (*s).wf() ==> call_requires(*g, (s,)),
            forall|s: &mut Scanner, out: ET|
                call_ensures(*f, (s,), out) ==> (*final(s)).wf() && (*final(s)).follows(&*s) && (
                out.spec_result().is_ok() ==> (*final(s)).consumed() > (*s).consumed()),
            forall|s: &mut Scanner, out: ER|
                call_ensures(*g, (s,), out) ==> (*final(s)).wf() && (*final(s)).follows(&*s),
            forall|acc: EU::Right, x: ET::Right| call_requires(*join, (acc, x)),
        ensures
            final(self).wf(),
            final(self).follows(old(self)),
            exists|s: &mut Scanner, out: ET|
                *s == *old(self) && #[trigger] call_ensures(*f, (s,), out) && r.spec_result().is_ok()
                    == out.spec_result().is_ok() && (out.spec_result().is_err() ==> *final(self) == *final(s)
                    && r.spec_result() == Err::<EU::Right, ET::Left>(out.spec_result()->Err_0)),
            r.spec_result().is_ok() ==> exists|states: Seq<Scanner>, mids: Seq<Scanner>, items: Seq<ET::Right>|
                #[trigger] spaced(states, mids, items) && items.len() >= 1 && states[0] == *old(self) && mids[0]
                    == *old(self) && states.last().same(final(self)) && (forall|i: int|
                    #[trigger] has_item(items, i) ==> exists|s: &mut Scanner, out: ET|
                        #[trigger] call_ensures(*f, (s,), out) && *s == mids[i] && *final(s) == states[i + 1]
                            && out.spec_result() == Ok::<ET::Right, ET::Left>(items[i])) && (forall|i: int|
                    #[trigger] has_item(items, i) && i >= 1 ==> exists|s: &mut Scanner, out: ER|
                        #[trigger] call_ensures(*g, (s,), out) && *s == states[i] && *final(s) == mids[i]
                            && out.spec_result().is_ok()) && folded(*join, init, items, r.spec_result()->Ok_0),
            r.spec_result().is_ok() ==> (exists|s: &mut Scanner, out: ER|
                (*s).same(final(self)) && #[trigger] call_ensures(*g, (s,), out) && out.spec_result().is_err()) || (
            exists|s: &mut Scanner, out: ER, t: &mut Scanner, last: ET|
                (*s).same(final(self)) && #[trigger] call_ensures(*g, (s,), out) && out.spec_result().is_ok() && *t
                    == *final(s) && #[trigger] call_ensures(*f, (t,), last) && last.spec_result().is_err()),
    {
        let ghost mut states: Seq<Scanner> = seq![*self];
        let ghost mut mids: Seq<Scanner> = seq![*self];
        let ghost mut items: Seq<ET::Right> = Seq::empty();
        let first = f(self);
        let mut res = match first.into_result() {
            Ok(x) => {
                let acc = join(init, x);
                proof {
                    states = states.push(*self);
                    items = items.push(x);
                    assert(items.drop_last() =~= Seq::<ET::Right>::empty());
                    assert(folded(*join, init, items.drop_last(), init));
                    assert(call_ensures(*join, (init, items.last()), acc));
                }
                acc
            },
            Err(e) => {
                return Either::left(e);
            },
        };
        loop
            invariant_except_break
                states.last() == *self,
            invariant
                spaced(states, mids, items),
                items.len() >= 1,
                states[0] == *old(self),
                mids[0] == *old(self),
                forall|i: int|
                    #[trigger] has_item(items, i) ==> exists|s: &mut Scanner, out: ET|
                        #[trigger] call_ensures(*f, (s,), out) && *s == mids[i] && *final(s) == states[i + 1]
                            && out.spec_result() == Ok::<ET::Right, ET::Left>(items[i]),
                forall|i: int|
                    #[trigger] has_item(items, i) && i >= 1 ==> exists|s: &mut Scanner, out: ER|
                        #[trigger] call_ensures(*g, (s,), out) && *s == states[i] && *final(s) == mids[i]
                            && out.spec_result().is_ok(),
                folded(*join, init, items, res),
                self.wf(),
                self.follows(old(self)),
                forall|s: &mut Scanner| (*s).wf() ==> call_requires(*f, (s,)),
                forall|s: &mut Scanner| (*s).wf() ==> call_requires(*g, (s,)),
                forall|s: &mut Scanner, out: ET|
                    call_ensures(*f, (s,), out) ==> (*final(s)).wf() && (*final(s)).follows(&*s) && (
                    out.spec_result().is_ok() ==> (*final(s)).consumed() > (*s).consumed()),
                forall|s: &mut Scanner, out: ER|
                    call_ensures(*g, (s,), out) ==> (*final(s)).wf() && (*final(s)).follows(&*s),
                forall|acc: EU::Right, x: ET::Right| call_requires(*join, (acc, x)),
            ensures
                self.wf(),
                self.follows(old(self)),
                states.last().same(self),
                (exists|s: &mut Scanner, out: ER|
                    (*s).same(self) && #[trigger] call_ensures(*g, (s,), out) && out.spec_result().is_err()) || (
                exists|s: &mut Scanner, out: ER, t: &mut Scanner, last: ET|
                    (*s).same(self) && #[trigger] call_ensures(*g, (s,), out) && out.spec_result().is_ok() && *t
                        == *final(s) && #[trigger] call_ensures(*f, (t,), last) && last.spec_result().is_err()),
            decreases self.source().len() - self.consumed(),
        {
            let ghost before = *self;
            let ghost states_before = states;
            let ghost mids_before = mids;
            let ghost items_before = items;
            let ghost res_before = res;
            let a = self.anchor();
            let between = g(self);
            let ghost mid = *self;
            proof {
                self.lemma_read_within();
            }
            if between.into_result().is_err() {
                self.revert(&a);
                proof {
                    assert(self.reports().take(old(self).reports().len() as int) =~= old(self).reports());
                }
                break ;
            }
            let out = f(self);
            proof {
                self.lemma_read_within();
                assert(self.reports().take(before.reports().len() as int) =~= before.reports()) by {
                    assert(mid.reports().take(before.reports().len() as int) == before.reports());
                    assert(self.reports().take(mid.reports().len() as int) == mid.reports());
                }
                assert(self.reports().take(old(self).reports().len() as int) =~= old(self).reports()) by {
                    assert(before.reports().take(old(self).reports().len() as int) == old(self).reports());
                }
            }
            match out.into_result() {
                Ok(x) => {
                    res = join(res, x);
                    proof {
                        states = states.push(*self);
                        mids = mids.push(mid);
                        items = items.push(x);
                        assert(items.drop_last() =~= items_before);
                        assert(items.last() == x);
                        assert(folded(*join, init, items.drop_last(), res_before));
                        assert(call_ensures(*join, (res_before, x), res));
                        assert(folded(*join, init, items, res));
                        assert forall|i: int| #[trigger] has_item(items, i) implies exists|s: &mut Scanner, out: ET|
                            #[trigger] call_ensures(*f, (s,), out) && *s == mids[i] && *final(s) == states[i + 1]
                                && out.spec_result() == Ok::<ET::Right, ET::Left>(items[i]) by {
                            if i < items_before.len() {
                                assert(has_item(items_before, i));
                                assert(mids[i] == mids_before[i]);
                                assert(states[i + 1] == states_before[i + 1]);
                                assert(items[i] == items_before[i]);
                            }
                        }
                        assert forall|i: int| #[trigger] has_item(items, i) && i >= 1 implies exists|
                            s: &mut Scanner,
                            out: ER,
                        |
                            #[trigger] call_ensures(*g, (s,), out) && *s == states[i] && *final(s) == mids[i]
                                && out.spec_result().is_ok() by {
                            if i < items_before.len() {
                                assert(has_item(items_before, i));
                                assert(mids[i] == mids_before[i]);
                                assert(states[i] == states_before[i]);
                            } else {
                                assert(states[i] == before);
                            }
                        }
                    }
                },
                Err(_) => {
                    self.revert(&a);
                    proof {
                        assert(self.reports().take(old(self).reports().len() as int) =~= old(self).reports());
                    }
                    break ;
                },
            }
        }
        Either::right(res)
    }

    /// Runs the rules `f` and `g` one after the other as often as the
    /// outcomes of both are rights: items with something behind each. Each
    /// right outcome of `f` is handed to `join`. An item without what
    /// belongs behind it is undone.
    pub fn end_by<ET: Either, EU: Either<Left = ET::Left>, ER: Either<Left = ET::Left>, F: Fn(&mut Scanner) -> ET, G: Fn(&mut Scanner) -> ER, J: Fn(EU::Right, ET::Right) -> EU::Right>(
        &mut self,
        f: &F,
        g: &G,
        init: EU::Right,
        join: &J,
    ) -> (r: EU)
        requires
            old(self).wf(),
            forall|s: &mut Scanner| (*s).wf() ==> call_requires(*f, (s,)),
            forall|s: &mut Scanner| (*s).wf() ==> call_requires(*g, (s,)),
            forall|s: &mut Scanner, out: ET|
                call_ensures(*f, (s,), out) ==> (*final(s)).wf() && (*final(s)).follows(&*s) && (
                out.spec_result().is_ok() ==> (*final(s)).consumed() > (*s).consumed()),
            forall|s: &mut Scanner, out: ER|
                call_ensures(*g, (s,), out) ==> (*final(s)).wf() && (*final(s)).follows(&*s),
            forall|acc: EU::Right, x: ET::Right| call_requires(*join, (acc, x)),
        ensures
            final(self).wf(),
            final(self).follows(old(self)),
            r.spec_result().is_ok(),
            exists|states: Seq<Scanner>, mids: Seq<Scanner>, items: Seq<ET::Right>|
                #[trigger] spaced(states, mids, items) && states[0] == *old(self) && states.last().same(final(self))
                    && (forall|i: int|
                    #[trigger] has_item(items, i) ==> exists|s: &mut Scanner, out: ET|
                        #[trigger] call_ensures(*f, (s,), out) && *s == states[i] && *final(s) == mids[i]
                            && out.spec_result() == Ok::<ET::Right, ET::Left>(items[i])) && (forall|i: int|
                    #[trigger] has_item(items, i) ==> exists|s: &mut Scanner, out: ER|
                        #[trigger] call_ensures(*g, (s,), out) && *s == mids[i] && *final(s) == states[i + 1]
                            && out.spec_result().is_ok()) && folded(*join, init, items, r.spec_result()->Ok_0),
            exists|s: &mut Scanner, out: ET, t: &mut Scanner, behind: ER|
                    (*s).same(final(self)) && #[trigger] call_ensures(*f, (s,), out) && *t == *final(s)
                        && #[trigger] call_ensures(*g, (t,), behind) && (out.spec_result().is_err()
                        || behind.spec_result().is_err()),
    {
        let mut res = init;
        let ghost mut states: Seq<Scanner> = seq![*self];
        let ghost mut mids: Seq<Scanner> = Seq::empty();
        let ghost mut items: Seq<ET::Right> = Seq::empty();
        proof {
            assert(self.reports().take(self.reports().len() as int) =~= self.reports());
        }
        loop
            invariant_except_break
                states.last() == *self,
            invariant
                spaced(states, mids, items),
                states[0] == *old(self),
                forall|i: int|
                    #[trigger] has_item(items, i) ==> exists|s: &mut Scanner, out: ET|
                        #[trigger] call_ensures(*f, (s,), out) && *s == states[i] && *final(s) == mids[i]
                            && out.spec_result() == Ok::<ET::Right, ET::Left>(items[i]),
                forall|i: int|
                    #[trigger] has_item(items, i) ==> exists|s: &mut Scanner, out: ER|
                        #[trigger] call_ensures(*g, (s,), out) && *s == mids[i] && *final(s) == states[i + 1]
                            && out.spec_result().is_ok(),
                folded(*join, init, items, res),
                self.wf(),
                self.follows(old(self)),
                forall|s: &mut Scanner| (*s).wf() ==> call_requires(*f, (s,)),
                forall|s: &mut Scanner| (*s).wf() ==> call_requires(*g, (s,)),
                forall|s: &mut Scanner, out: ET|
                    call_ensures(*f, (s,), out) ==> (*final(s)).wf() && (*final(s)).follows(&*s) && (
                    out.spec_result().is_ok() ==> (*final(s)).consumed() > (*s).consumed()),
                forall|s: &mut Scanner, out: ER|
                    call_ensures(*g, (s,), out) ==> (*final(s)).wf() && (*final(s)).follows(&*s),
                forall|acc: EU::Right, x: ET::Right| call_requires(*join, (acc, x)),
            ensures
                self.wf(),
                self.follows(old(self)),
                states.last().same(self),
                exists|s: &mut Scanner, out: ET, t: &mut Scanner, behind: ER|
                    (*s).same(self) && #[trigger] call_ensures(*f, (s,), out) && *t == *final(s)
                        && #[trigger] call_ensures(*g, (t,), behind) && (out.spec_result().is_err()
                        || behind.spec_result().is_err()),
            decreases self.source().len() - self.consumed(),
        {
            let ghost before = *self;
            let ghost states_before = states;
            let ghost mids_before = mids;
            let ghost items_before = items;
            let ghost res_before = res;
            let a = self.anchor();
            let out = f(self);
            let ghost mid = *self;
            let behind = g(self);
            proof {
                self.lemma_read_within();
                assert(self.reports().take(before.reports().len() as int) =~= before.reports()) by {
                    assert(mid.reports().take(before.reports().len() as int) == before.reports());
                    assert(self.reports().take(mid.reports().len() as int) == mid.reports());
                }
                assert(self.reports().take(old(self).reports().len() as int) =~= old(self).reports()) by {
                    assert(before.reports().take(old(self).reports().len() as int) == old(self).reports());
                }
            }
            if behind.into_result().is_err() {
                self.revert(&a);
                proof {
                    assert(self.reports().take(old(self).reports().len() as int) =~= old(self).reports());
                }
                break ;
            }
            match out.into_result() {
                Ok(x) => {
                    res = join(res, x);
                    proof {
                        states = states.push(*self);
                        mids = mids.push(mid);
                        items = items.push(x);
                        assert(items.drop_last() =~= items_before);
                        assert(items.last() == x);
                        assert(folded(*join, init, items.drop_last(), res_before));
                        assert(call_ensures(*join, (res_before, x), res));
                        assert(folded(*join, init, items, res));
                        assert forall|i: int| #[trigger] has_item(items, i) implies exists|s: &mut Scanner, out: ET|
                            #[trigger] call_ensures(*f, (s,), out) && *s == states[i] && *final(s) == mids[i]
                                && out.spec_result() == Ok::<ET::Right, ET::Left>(items[i]) by {
                            if i < items_before.len() {
                                assert(has_item(items_before, i));
                                assert(mids[i] == mids_before[i]);
                                assert(states[i] == states_before[i]);
                                assert(items[i] == items_before[i]);
                            } else {
                                assert(states[i] == before);
                            }
                        }
                        assert forall|i: int| #[trigger] has_item(items, i) implies exists|s: &mut Scanner, out: ER|
                            #[trigger] call_ensures(*g, (s,), out) && *s == mids[i] && *final(s) == states[i + 1]
                                && out.spec_result().is_ok() by {
                            if i < items_before.len() {
                                assert(has_item(items_before, i));
                                assert(mids[i] == mids_before[i]);
                                assert(states[i + 1] == states_before[i + 1]);
                            }
                        }
                    }
                },
                Err(_) => {
                    self.revert(&a);
                    proof {
                        assert(self.reports().take(old(self).reports().len() as int) =~= old(self).reports());
                    }
                    break ;
                },
            }
        }
        Either::right(res)
    }
}

} // verus!
