//! A stream over an iterator: items can be looked at before they are taken,
//! and put back.

use vstd::prelude::*;
use std::collections::VecDeque;
use vstd::std_specs::iter::IteratorSpec;

verus! {

/// A stream over an iterator: the items that were taken out of the
/// iterator to be looked at, or were put back, and the iterator with the
/// items behind them.
pub struct IterStream<I: Iterator> {
    pub raw_iter: I,
    pub buffer: VecDeque<I::Item>,
}

impl<I: Iterator> IterStream<I> {
    /// The stream over `raw_iter`.
    pub fn from(raw_iter: I) -> (r: Self)
        ensures
            r.raw_iter == raw_iter,
            r.buffer@.len() == 0,
    {
        IterStream { raw_iter, buffer: VecDeque::new() }
    }

    /// The next item: the first of those that wait, or else the next of
    /// the iterator.
    pub fn next(&mut self) -> (r: Option<I::Item>)
        ensures
            old(self).buffer@.len() > 0 ==> r == Some(old(self).buffer@[0]) && final(self).buffer@ == old(self).buffer@.drop_first() && final(self).raw_iter == old(self).raw_iter,
            old(self).buffer@.len() == 0 ==> final(self).buffer@.len() == 0,
            old(self).buffer@.len() == 0 && old(self).raw_iter.obeys_prophetic_iter_laws() ==> (if old(self).raw_iter.remaining().len() > 0 {
                r == Some(old(self).raw_iter.remaining()[0]) && final(self).raw_iter.remaining() == old(self).raw_iter.remaining().drop_first()
            } else {
                r is None
            }),
    {
        match self.buffer.pop_front() {
            Some(x) => Some(x),
            None => self.raw_iter.next(),
        }
    }

    /// Puts an item back: it is the next of the stream.
    pub fn put_back(&mut self, x: I::Item)
        ensures
            final(self).buffer@ == seq![x] + old(self).buffer@,
            final(self).raw_iter == old(self).raw_iter,
    {
        self.buffer.push_front(x);
        proof {
            assert(self.buffer@ =~= seq![x] + old(self).buffer@);
        }
    }

    /// Takes items out of the iterator, to wait with the others, until `n`
    /// items wait or the iterator has no more; says whether `n` items
    /// wait. The items of the stream stay what they are.
    pub fn prepare(&mut self, n: usize) -> (r: Option<()>)
        ensures
            r is Some <==> final(self).buffer@.len() >= n,
            old(self).buffer@.len() >= n ==> final(self).buffer@ == old(self).buffer@ && final(self).raw_iter == old(self).raw_iter,
            final(self).raw_iter.obeys_prophetic_iter_laws() == old(self).raw_iter.obeys_prophetic_iter_laws(),
            old(self).raw_iter.obeys_prophetic_iter_laws() ==> final(self).buffer@ + final(self).raw_iter.remaining()
                == old(self).buffer@ + old(self).raw_iter.remaining() && (r is None ==> final(self).raw_iter.remaining().len() == 0),
    {
        while self.buffer.len() < n
            invariant
                old(self).buffer@.len() >= n ==> self.buffer@ == old(self).buffer@ && self.raw_iter == old(self).raw_iter,
                self.raw_iter.obeys_prophetic_iter_laws() == old(self).raw_iter.obeys_prophetic_iter_laws(),
                old(self).raw_iter.obeys_prophetic_iter_laws() ==> self.buffer@ + self.raw_iter.remaining() == old(self).buffer@ + old(self).raw_iter.remaining(),
            decreases n - self.buffer@.len(),
        {
            let ghost waiting = self.buffer@;
            let ghost rest = self.raw_iter.remaining();
            match self.raw_iter.next() {
                Some(x) => {
                    self.buffer.push_back(x);
                    proof {
                        if old(self).raw_iter.obeys_prophetic_iter_laws() {
                            assert(self.buffer@ + self.raw_iter.remaining() =~= waiting + rest);
                        }
                    }
                },
                None => {
                    return None;
                },
            }
        }
        Some(())
    }

    /// The item `n` places on in the stream, which stays where it is; none
    /// if the stream has no such item.
    pub fn peek(&mut self, n: usize) -> (r: Option<&I::Item>)
        requires
            n < usize::MAX,
        ensures
            final(self).raw_iter.obeys_prophetic_iter_laws() == old(self).raw_iter.obeys_prophetic_iter_laws(),
            r is Some <==> n < final(self).buffer@.len(),
            r is Some ==> *r->Some_0 == final(self).buffer@[n as int],
            old(self).raw_iter.obeys_prophetic_iter_laws() ==> final(self).buffer@ + final(self).raw_iter.remaining()
                == old(self).buffer@ + old(self).raw_iter.remaining() && (r is Some <==> n < (old(self).buffer@ + old(self).raw_iter.remaining()).len()) && (r is Some ==> *r->Some_0 == (old(self).buffer@ + old(self).raw_iter.remaining())[n as int]),
    {
        let _ = self.prepare(n + 1);
        if n < self.buffer.len() {
            Some(&self.buffer[n])
        } else {
            None
        }
    }

    /// Hands the iterator out. Nothing may wait in the stream.
    pub fn unwrap(self) -> (r: I)
        requires
            self.buffer@.len() == 0,
        ensures
            r == self.raw_iter,
    {
        self.raw_iter
    }

    /// Hands the iterator out, and the items that wait.
    pub fn unwrap_full(self) -> (r: (I, VecDeque<I::Item>))
        ensures
            r.0 == self.raw_iter,
            r.1 == self.buffer,
    {
        (self.raw_iter, self.buffer)
    }
}


/// A look ahead into a stream: every look goes one item further.
pub struct IterStreamMultiPeek<'a, I: Iterator> {
    pub iter_stream: &'a mut IterStream<I>,
    pub current_position: usize,
}

impl<I: Iterator> IterStream<I> {
    /// Begins a look ahead at the next item of the stream.
    pub fn multi_peek(&mut self) -> (r: IterStreamMultiPeek<'_, I>)
        ensures
            r.current_position == 0,
            *r.iter_stream == *old(self),
            *final(r.iter_stream) == *final(self),
    {
        IterStreamMultiPeek { iter_stream: self, current_position: 0 }
    }
}

impl<'a, I: Iterator> IterStreamMultiPeek<'a, I> {
    /// The item that the look ahead has come to, and a step further.
    pub fn peek_ref(&mut self) -> (r: Option<&I::Item>)
        requires
            old(self).current_position < usize::MAX,
        ensures
            final(self).current_position == old(self).current_position + 1,
            r is Some <==> old(self).current_position < final(self).iter_stream.buffer@.len(),
            r is Some ==> *r->Some_0 == final(self).iter_stream.buffer@[old(self).current_position as int],
            old(self).iter_stream.raw_iter.obeys_prophetic_iter_laws() ==> final(self).iter_stream.buffer@ + final(
                self).iter_stream.raw_iter.remaining() == old(self).iter_stream.buffer@ + old(
                self).iter_stream.raw_iter.remaining(),
            final(self).iter_stream.raw_iter.obeys_prophetic_iter_laws() == old(
                self).iter_stream.raw_iter.obeys_prophetic_iter_laws(),
            old(self).iter_stream.raw_iter.obeys_prophetic_iter_laws() ==> (r is Some <==> old(self).current_position
                < (old(self).iter_stream.buffer@ + old(self).iter_stream.raw_iter.remaining()).len()),
            old(self).iter_stream.raw_iter.obeys_prophetic_iter_laws() && r is Some ==> *r->Some_0 == (old(
                self).iter_stream.buffer@ + old(self).iter_stream.raw_iter.remaining())[old(
                self).current_position as int],
    {
        let n = self.current_position;
        self.current_position += 1;
        self.iter_stream.peek(n)
    }
}

impl<'a, I: Iterator> IterStreamMultiPeek<'a, I> where I::Item: Copy {
    /// The item that the look ahead has come to, and a step further.
    pub fn peek(&mut self) -> (r: Option<I::Item>)
        requires
            old(self).current_position < usize::MAX,
        ensures
            final(self).current_position == old(self).current_position + 1,
            r is Some <==> old(self).current_position < final(self).iter_stream.buffer@.len(),
            r is Some ==> r->Some_0 == final(self).iter_stream.buffer@[old(self).current_position as int],
            old(self).iter_stream.raw_iter.obeys_prophetic_iter_laws() ==> final(self).iter_stream.buffer@ + final(
                self).iter_stream.raw_iter.remaining() == old(self).iter_stream.buffer@ + old(
                self).iter_stream.raw_iter.remaining(),
            final(self).iter_stream.raw_iter.obeys_prophetic_iter_laws() == old(
                self).iter_stream.raw_iter.obeys_prophetic_iter_laws(),
            old(self).iter_stream.raw_iter.obeys_prophetic_iter_laws() ==> (r is Some <==> old(self).current_position
                < (old(self).iter_stream.buffer@ + old(self).iter_stream.raw_iter.remaining()).len()),
            old(self).iter_stream.raw_iter.obeys_prophetic_iter_laws() && r is Some ==> r->Some_0 == (old(
                self).iter_stream.buffer@ + old(self).iter_stream.raw_iter.remaining())[old(
                self).current_position as int],
    {
        match self.peek_ref() {
            Some(x) => Some(*x),
            None => None,
        }
    }
}

} // verus!
