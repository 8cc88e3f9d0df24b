//! A buffer over the characters of an input.

use vstd::prelude::*;
use crate::buffer::anchor::AnchorBuffer;
use crate::buffer::{Buffer, StreamN};
use crate::char::Stream;

verus! {

/// A buffer over an input: the characters are loaded as they are asked for,
/// and the reading can go back to an anchor.
pub struct NormalBuffer {
    input: Vec<char>,
    loaded: usize,
    current: usize,
    anchor: Option<usize>,
}

impl NormalBuffer {
    /// The number of characters that were loaded from the input.
    pub closed spec fn loaded_count(&self) -> usize {
        self.loaded
    }

    /// The invariant of a buffer.
    pub closed spec fn wf(&self) -> bool {
        &&& self.current <= self.loaded <= self.input@.len()
        &&& match self.anchor {
            Some(a) => a <= self.current,
            None => true,
        }
    }

    /// A buffer at the beginning of `input`, with nothing loaded yet.
    pub fn new(input: Vec<char>) -> (r: Self)
        ensures
            r.ready(),
            r.remaining() == input@,
            r.source() == input@,
            r.position() == 0,
            r.anchor_at().is_none(),
            r.loaded_count() == 0,
    {
        let r = NormalBuffer { input, loaded: 0, current: 0, anchor: None };
        proof {
            assert(r.remaining() =~= r.input@);
        }
        r
    }

    /// What is still to come is the input from where the reading is.
    pub proof fn lemma_remaining(&self)
        requires
            self.ready(),
        ensures
            self.position() <= self.source().len(),
            self.remaining() == self.source().skip(self.position() as int),
            match self.anchor_at() {
                Some(a) => a <= self.position(),
                None => true,
            },
    {
    }

    /// How many characters are loaded once `n` are asked to be there to be
    /// read: as many as before if so many are there, otherwise those that
    /// were read and `n` more, or all of the input if it has not so many.
    pub open spec fn loaded_for(&self, n: usize) -> int {
        if n <= self.loaded_count() - self.position() {
            self.loaded_count() as int
        } else if n <= self.remaining().len() {
            self.position() + n
        } else {
            self.position() + self.remaining().len()
        }
    }

    /// Loads characters from the input until `n` are there to be read, or
    /// the input has ended.
    pub fn read_n(&mut self, n: usize)
        requires
            old(self).ready(),
        ensures
            final(self).ready(),
            final(self).remaining() == old(self).remaining(),
            final(self).position() == old(self).position(),
            final(self).anchor_at() == old(self).anchor_at(),
            final(self).loaded_count() >= old(self).loaded_count(),
            final(self).loaded_count() - final(self).position() >= n || final(self).loaded_count()
                - final(self).position() == final(self).remaining().len(),
            final(self).loaded_count() == old(self).loaded_for(n),
            final(self).source() == old(self).source(),
    {
        let there = self.loaded - self.current;
        if n > there {
            let rest = self.input.len() - self.current;
            if n <= rest {
                self.loaded = self.current + n;
            } else {
                self.loaded = self.input.len();
            }
        }
    }

    /// Sets an anchor here. The buffer is handed back, with the anchor that
    /// it had, by `AnchorBuffer::release`.
    pub fn anchor(self) -> (r: AnchorBuffer)
        requires
            self.ready(),
        ensures
            r.ready(),
            r.remaining() == self.remaining(),
            r.position() == self.position(),
            r.anchor_at() == Some(self.position()),
            r.saved() == self.anchor_at(),
            r.source() == self.source(),
    {
        AnchorBuffer::new(self)
    }
}

impl Stream for NormalBuffer {
    closed spec fn remaining(&self) -> Seq<char> {
        self.input@.skip(self.current as int)
    }

    closed spec fn ready(&self) -> bool {
        self.wf()
    }

    fn peek(&mut self) -> (r: Option<char>)
        ensures
            final(self).anchor_at() == old(self).anchor_at(),
            final(self).position() == old(self).position(),
            final(self).loaded_count() == old(self).loaded_for(1),
            final(self).source() == old(self).source(),
    {
        self.read_n(1);
        if self.current < self.loaded {
            Some(self.input[self.current])
        } else {
            None
        }
    }

    fn next(&mut self) -> (r: Option<char>)
        ensures
            final(self).anchor_at() == old(self).anchor_at(),
            final(self).position() == old(self).position() + if r is Some {
                1int
            } else {
                0int
            },
            final(self).loaded_count() == old(self).loaded_for(1),
            final(self).source() == old(self).source(),
    {
        self.read_n(1);
        if self.current < self.loaded {
            let c = self.input[self.current];
            self.current += 1;
            proof {
                assert(self.remaining() =~= old(self).remaining().drop_first());
            }
            Some(c)
        } else {
            None
        }
    }
}

impl StreamN for NormalBuffer {
    fn peek_n(&mut self, n: usize) -> (r: Vec<char>)
        ensures
            final(self).anchor_at() == old(self).anchor_at(),
            final(self).position() == old(self).position(),
            final(self).position() + r@.len() <= final(self).loaded_count(),
            final(self).loaded_count() == old(self).loaded_for(n),
            final(self).source() == old(self).source(),
    {
        self.read_n(n);
        let mut r: Vec<char> = Vec::new();
        let mut i: usize = 0;
        let there = self.loaded - self.current;
        let m = if n <= there {
            n
        } else {
            there
        };
        proof {
            assert(r@ =~= self.input@.skip(self.current as int).take(0));
        }
        while i < m
            invariant
                i <= m,
                self.wf(),
                m <= self.loaded - self.current,
                r@ == self.input@.skip(self.current as int).take(i as int),
            decreases m - i,
        {
            r.push(self.input[self.current + i]);
            proof {
                assert(r@ =~= self.input@.skip(self.current as int).take(i + 1));
            }
            i += 1;
        }
        r
    }

    fn next_n(&mut self, n: usize) -> (r: Vec<char>)
        ensures
            final(self).anchor_at() == old(self).anchor_at(),
            final(self).position() == old(self).position() + r@.len(),
            final(self).loaded_count() == old(self).loaded_for(n),
            final(self).source() == old(self).source(),
    {
        let r = self.peek_n(n);
        self.current += r.len();
        proof {
            assert(self.remaining() =~= old(self).remaining().skip(r@.len() as int));
        }
        r
    }
}

impl Buffer for NormalBuffer {
    closed spec fn anchor_at(&self) -> Option<usize> {
        self.anchor
    }

    closed spec fn position(&self) -> usize {
        self.current
    }

    closed spec fn source(&self) -> Seq<char> {
        self.input@
    }

    fn revert(&mut self)
        ensures
            final(self).remaining().len() >= old(self).remaining().len(),
            final(self).loaded_count() == old(self).loaded_count(),
    {
        match self.anchor {
            Some(a) => {
                self.current = a;
            },
            None => {},
        }
    }

    fn set_anchor(&mut self, anchor: Option<usize>) -> (r: Option<usize>)
        ensures
            final(self).loaded_count() == old(self).loaded_count(),
    {
        let old_anchor = self.anchor;
        self.anchor = anchor;
        old_anchor
    }

    fn current_index(&mut self) -> (r: usize)
        ensures
            match final(self).anchor_at() {
                Some(a) => a <= r,
                None => true,
            },
            final(self).loaded_count() == old(self).loaded_count(),
    {
        self.current
    }
}

} // verus!
