//! A buffer with an anchor of its own.

use vstd::prelude::*;
use crate::buffer::normal::NormalBuffer;
use crate::buffer::{Buffer, StreamN};
use crate::char::Stream;

verus! {

/// A buffer with an anchor where it was made. When it is released, the
/// buffer underneath has the anchor again that it had before; the reading
/// stays where it is, unless it was reverted.
pub struct AnchorBuffer {
    buffer: NormalBuffer,
    anchor: Option<usize>,
}

impl AnchorBuffer {
    /// The anchor that the buffer underneath had.
    pub closed spec fn saved(&self) -> Option<usize> {
        self.anchor
    }

    /// All the characters of the input.
    pub closed spec fn source(&self) -> Seq<char> {
        self.buffer.source()
    }

    /// Sets an anchor at the place where `buffer` reads.
    pub fn new(buffer: NormalBuffer) -> (r: Self)
        requires
            buffer.ready(),
        ensures
            r.ready(),
            r.remaining() == buffer.remaining(),
            r.position() == buffer.position(),
            r.anchor_at() == Some(buffer.position()),
            r.saved() == buffer.anchor_at(),
            r.source() == buffer.source(),
    {
        let mut buffer = buffer;
        let idx = buffer.current_index();
        let saved = buffer.set_anchor(Some(idx));
        AnchorBuffer { buffer, anchor: saved }
    }

    /// Hands the buffer underneath back, with the anchor that it had.
    pub fn release(self) -> (r: NormalBuffer)
        requires
            self.ready(),
        ensures
            r.ready(),
            r.remaining() == self.remaining(),
            r.position() == self.position(),
            r.anchor_at() == self.saved(),
            r.source() == self.source(),
    {
        let AnchorBuffer { buffer, anchor } = self;
        let mut buffer = buffer;
        let _ = buffer.set_anchor(anchor);
        buffer
    }
}

impl Stream for AnchorBuffer {
    closed spec fn remaining(&self) -> Seq<char> {
        self.buffer.remaining()
    }

    closed spec fn ready(&self) -> bool {
        &&& self.buffer.ready()
        &&& self.buffer.anchor_at().is_some()
        &&& self.buffer.anchor_at().unwrap() <= self.buffer.position()
        &&& match self.anchor {
            Some(a) => a <= self.buffer.anchor_at().unwrap(),
            None => true,
        }
    }

    fn peek(&mut self) -> (r: Option<char>)
        ensures
            final(self).anchor_at() == old(self).anchor_at(),
            final(self).saved() == old(self).saved(),
            final(self).source() == old(self).source(),
            final(self).position() == old(self).position(),
    {
        self.buffer.peek()
    }

    fn next(&mut self) -> (r: Option<char>)
        ensures
            final(self).anchor_at() == old(self).anchor_at(),
            final(self).saved() == old(self).saved(),
            final(self).source() == old(self).source(),
            final(self).position() == old(self).position() + if r is Some {
                1int
            } else {
                0int
            },
    {
        self.buffer.next()
    }
}

impl StreamN for AnchorBuffer {
    fn peek_n(&mut self, n: usize) -> (r: Vec<char>)
        ensures
            final(self).anchor_at() == old(self).anchor_at(),
            final(self).saved() == old(self).saved(),
            final(self).source() == old(self).source(),
            final(self).position() == old(self).position(),
    {
        self.buffer.peek_n(n)
    }

    fn next_n(&mut self, n: usize) -> (r: Vec<char>)
        ensures
            final(self).anchor_at() == old(self).anchor_at(),
            final(self).saved() == old(self).saved(),
            final(self).source() == old(self).source(),
            final(self).position() == old(self).position() + r@.len(),
    {
        self.buffer.next_n(n)
    }
}

impl AnchorBuffer {
    /// What is still to come is the input from where the reading is, and
    /// the anchor is not behind the reading.
    pub proof fn lemma_remaining(&self)
        requires
            self.ready(),
        ensures
            self.position() <= self.source().len(),
            self.remaining() == self.source().skip(self.position() as int),
            self.anchor_at() is Some,
            self.anchor_at().unwrap() <= self.position(),
    {
        self.buffer.lemma_remaining();
    }

    /// The place of the anchor.
    pub closed spec fn anchor_at(&self) -> Option<usize> {
        self.buffer.anchor_at()
    }

    /// The number of characters that were read.
    pub closed spec fn position(&self) -> usize {
        self.buffer.position()
    }

    /// Goes back to the anchor.
    pub fn revert(&mut self)
        requires
            old(self).ready(),
        ensures
            final(self).ready(),
            final(self).anchor_at() == old(self).anchor_at(),
            final(self).saved() == old(self).saved(),
            final(self).position() == old(self).anchor_at().unwrap(),
            final(self).source() == old(self).source(),
            final(self).position() <= final(self).source().len(),
            final(self).remaining() == final(self).source().skip(final(self).position() as int),
    {
        self.buffer.revert()
    }

    /// The number of characters that were read.
    pub fn current_index(&mut self) -> (r: usize)
        requires
            old(self).ready(),
        ensures
            final(self).ready(),
            r == old(self).position(),
            final(self).position() == old(self).position(),
            final(self).anchor_at() == old(self).anchor_at(),
            final(self).saved() == old(self).saved(),
            final(self).remaining() == old(self).remaining(),
            final(self).source() == old(self).source(),
    {
        self.buffer.current_index()
    }
}

} // verus!
