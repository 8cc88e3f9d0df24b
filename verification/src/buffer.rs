//! Buffers of characters with an anchor to which the reading can go back,
//! and the reading of a run of characters from a stream.

pub mod anchor;
pub mod normal;

use vstd::prelude::*;
use vstd::string::StrSliceExecFns;
use crate::char::{CharPredicate, Stream};

verus! {

/// A stream from which several characters can be read at once.
pub trait StreamN: Stream {
    /// Up to `n` characters, which stay in the stream.
    fn peek_n(&mut self, n: usize) -> (r: Vec<char>)
        requires
            old(self).ready(),
        ensures
            final(self).ready(),
            final(self).remaining() == old(self).remaining(),
            r@ == old(self).remaining().take(if n <= old(self).remaining().len() {
                n as int
            } else {
                old(self).remaining().len() as int
            }),
    ;

    /// Takes up to `n` characters out of the stream.
    fn next_n(&mut self, n: usize) -> (r: Vec<char>)
        requires
            old(self).ready(),
        ensures
            final(self).ready(),
            r@ == old(self).remaining().take(if n <= old(self).remaining().len() {
                n as int
            } else {
                old(self).remaining().len() as int
            }),
            final(self).remaining() == old(self).remaining().skip(r@.len() as int),
    ;
}

/// A stream that can go back to an anchor.
pub trait Buffer: Stream {
    /// The place of the anchor, if one is set.
    spec fn anchor_at(&self) -> Option<usize>;

    /// The number of characters that were read.
    spec fn position(&self) -> usize;

    /// All the characters of the input: those that were read, and those
    /// that are still to come.
    spec fn source(&self) -> Seq<char>;

    /// Goes back to the anchor: what was read since is still to come.
    fn revert(&mut self)
        requires
            old(self).ready(),
            old(self).anchor_at().is_some(),
        ensures
            final(self).ready(),
            final(self).anchor_at() == old(self).anchor_at(),
            final(self).position() == old(self).anchor_at().unwrap(),
            final(self).source() == old(self).source(),
            final(self).position() <= final(self).source().len(),
            final(self).remaining() == final(self).source().skip(final(self).position() as int),
    ;

    /// Sets or clears the anchor and returns what it was.
    fn set_anchor(&mut self, anchor: Option<usize>) -> (r: Option<usize>)
        requires
            old(self).ready(),
            match anchor {
                Some(a) => a <= old(self).position(),
                None => true,
            },
        ensures
            final(self).ready(),
            r == old(self).anchor_at(),
            final(self).anchor_at() == anchor,
            final(self).position() == old(self).position(),
            final(self).remaining() == old(self).remaining(),
            final(self).source() == old(self).source(),
    ;

    /// The number of characters that were read.
    fn current_index(&mut self) -> (r: usize)
        requires
            old(self).ready(),
        ensures
            final(self).ready(),
            r == old(self).position(),
            final(self).position() == old(self).position(),
            final(self).anchor_at() == old(self).anchor_at(),
            final(self).remaining() == old(self).remaining(),
            final(self).source() == old(self).source(),
    ;
}

/// The number of characters at the front of `s` that all belong to `p`, up
/// to the first that does not.
pub open spec fn run_length<P: CharPredicate>(p: P, s: Seq<char>) -> nat
    decreases s.len(),
{
    if s.len() == 0 || !p.holds(s[0]) {
        0
    } else {
        1 + run_length(p, s.drop_first())
    }
}

/// A run is no longer than what it is a run of.
pub proof fn lemma_run_bound<P: CharPredicate>(p: P, s: Seq<char>)
    ensures
        run_length(p, s) <= s.len(),
    decreases s.len(),
{
    if s.len() > 0 && p.holds(s[0]) {
        lemma_run_bound(p, s.drop_first());
    }
}

/// Takes characters out of the stream as long as they belong to `p`, and
/// hands each to `join`, together with what `join` gave for those before.
pub fn span<S: Stream, P: CharPredicate, T, J: Fn(T, char) -> T>(this: &mut S, p: &P, init: T, join: &J) -> (r: T)
    requires
        old(this).ready(),
        forall|t: T, c: char| call_requires(*join, (t, c)),
    ensures
        final(this).ready(),
        final(this).remaining() == old(this).remaining().skip(run_length(*p, old(this).remaining()) as int),
        joined(*join, init, old(this).remaining().take(run_length(*p, old(this).remaining()) as int), r),
{
    let mut res = init;
    let ghost all = this.remaining();
    let ghost mut taken: nat = 0;
    proof {
        assert(all.skip(0) =~= all);
        assert(all.take(0) =~= Seq::<char>::empty());
    }
    loop
        invariant
            this.ready(),
            taken <= all.len(),
            this.remaining() == all.skip(taken as int),
            run_length(*p, all) == taken + run_length(*p, all.skip(taken as int)),
            joined(*join, init, all.take(taken as int), res),
            forall|t: T, c: char| call_requires(*join, (t, c)),
        ensures
            this.ready(),
            this.remaining() == all.skip(run_length(*p, all) as int),
            joined(*join, init, all.take(run_length(*p, all) as int), res),
        decreases all.len() - taken,
    {
        match this.peek() {
            Some(x) => {
                if !p.check(x) {
                    break ;
                }
                let ghost before = res;
                res = join(res, x);
                let _ = this.next();
                proof {
                    let rest = all.skip(taken as int);
                    assert(rest.drop_first() =~= all.skip(taken as int + 1));
                    assert(all.take(taken as int + 1).drop_last() =~= all.take(taken as int));
                    assert(all.take(taken as int + 1).last() == x);
                    taken = taken + 1;
                }
            },
            None => {
                break ;
            },
        }
    }
    res
}

/// `out` is what `join` may give when it is handed the characters of `s`
/// one after the other, beginning with `init`.
pub open spec fn joined<T, J: Fn(T, char) -> T>(join: J, init: T, s: Seq<char>, out: T) -> bool
    decreases s.len(),
{
    if s.len() == 0 {
        out == init
    } else {
        exists|mid: T| joined(join, init, s.drop_last(), mid) && #[trigger] call_ensures(join, (mid, s.last()), out)
    }
}

/// Takes characters out of the stream as long as they belong to `p`, and
/// returns them.
pub fn span_collect<S: Stream, P: CharPredicate>(this: &mut S, p: &P) -> (r: Vec<char>)
    requires
        old(this).ready(),
    ensures
        final(this).ready(),
        r@ == old(this).remaining().take(run_length(*p, old(this).remaining()) as int),
        final(this).remaining() == old(this).remaining().skip(run_length(*p, old(this).remaining()) as int),
{
    let mut res: Vec<char> = Vec::new();
    let ghost all = this.remaining();
    proof {
        assert(all.skip(0) =~= all);
        assert(all.take(0) =~= Seq::<char>::empty());
    }
    loop
        invariant
            this.ready(),
            res@.len() <= all.len(),
            this.remaining() == all.skip(res@.len() as int),
            run_length(*p, all) == res@.len() + run_length(*p, all.skip(res@.len() as int)),
            res@ == all.take(res@.len() as int),
        ensures
            this.ready(),
            this.remaining() == all.skip(run_length(*p, all) as int),
            res@ == all.take(run_length(*p, all) as int),
        decreases all.len() - res@.len(),
    {
        match this.peek() {
            Some(x) => {
                if !p.check(x) {
                    break ;
                }
                let ghost n = res@.len();
                res.push(x);
                let _ = this.next();
                proof {
                    let rest = all.skip(n as int);
                    assert(rest.drop_first() =~= all.skip(n as int + 1));
                    assert(res@ =~= all.take(n as int + 1));
                }
            },
            None => {
                break ;
            },
        }
    }
    res
}

/// Takes characters out of the stream as long as they belong to `p`.
pub fn span_<S: Stream, P: CharPredicate>(this: &mut S, p: &P)
    requires
        old(this).ready(),
    ensures
        final(this).ready(),
        final(this).remaining() == old(this).remaining().skip(run_length(*p, old(this).remaining()) as int),
{
    let _ = span_collect(this, p);
}


/// How many characters `s` and `t` begin with in common.
pub open spec fn common_prefix(s: Seq<char>, t: Seq<char>) -> nat
    decreases s.len(),
{
    if s.len() == 0 || t.len() == 0 || s[0] != t[0] {
        0
    } else {
        1 + common_prefix(s.drop_first(), t.drop_first())
    }
}

/// What is read of a stream when `s` is matched against it: all of `s` if
/// the stream begins with it, otherwise what the two have in common and
/// the character that is in the way, if there is one.
pub open spec fn match_taken(s: Seq<char>, stream: Seq<char>) -> nat {
    let k = common_prefix(s, stream);
    if k == s.len() || k == stream.len() {
        k
    } else {
        k + 1
    }
}

/// Takes the characters of `s` out of the stream, one after the other, and
/// says whether the stream began with `s`. Where it did not, what was
/// taken stays taken.
pub fn match_text<S: Stream>(this: &mut S, s: &str) -> (r: bool)
    requires
        old(this).ready(),
    ensures
        final(this).ready(),
        r == (common_prefix(s@, old(this).remaining()) == s@.len()),
        final(this).remaining() == old(this).remaining().skip(match_taken(s@, old(this).remaining()) as int),
{
    let n = s.unicode_len();
    let ghost all = this.remaining();
    let mut i: usize = 0;
    proof {
        assert(all.skip(0) =~= all);
        assert(s@.skip(0) =~= s@);
    }
    while i < n
        invariant
            i <= n,
            n == s@.len(),
            this.ready(),
            all == old(this).remaining(),
            i <= all.len(),
            this.remaining() == all.skip(i as int),
            common_prefix(s@, all) == i + common_prefix(s@.skip(i as int), all.skip(i as int)),
        decreases n - i,
    {
        let c = s.get_char(i);
        let ghost rest = all.skip(i as int);
        let ghost left = s@.skip(i as int);
        proof {
            assert(left[0] == c);
            assert(left.drop_first() =~= s@.skip(i + 1));
            if rest.len() > 0 {
                assert(rest.drop_first() =~= all.skip(i + 1));
            }
        }
        match this.next() {
            Some(x) => {
                if x != c {
                    proof {
                        assert(common_prefix(left, rest) == 0);
                    }
                    return false;
                }
            },
            None => {
                proof {
                    assert(common_prefix(left, rest) == 0);
                }
                return false;
            },
        }
        i += 1;
    }
    proof {
        assert(common_prefix(s@.skip(n as int), all.skip(n as int)) == 0);
    }
    true
}

} // verus!
