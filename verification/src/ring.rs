use vstd::prelude::*;

use crate::token::{Instr, Token};

verus! {

/// The window of tokens whose final size is not yet known, in insertion
/// order, each paired with a size. A size below zero means "not yet
/// resolved"; once a token's size is known it is rewritten in place, and
/// entries may be popped from the front only after resolution.
pub struct RingBuffer {
    toks: Vec<Token>,
    sizes: Vec<i64>,
}

impl RingBuffer {
    /// The tokens currently buffered, front first.
    pub closed spec fn toks(&self) -> Seq<Instr> {
        self.toks@.map_values(|t: Token| t@)
    }

    /// The size slot of each buffered token, front first.
    pub closed spec fn sizes(&self) -> Seq<i64> {
        self.sizes@
    }

    pub open spec fn wf(&self) -> bool {
        self.toks().len() == self.sizes().len()
    }

    pub fn new() -> (r: RingBuffer)
        ensures
            r.wf(),
            r.toks() == Seq::<Instr>::empty(),
            r.sizes() == Seq::<i64>::empty(),
    {
        let r = RingBuffer { toks: Vec::new(), sizes: Vec::new() };
        proof {
            assert(r.toks() =~= Seq::<Instr>::empty());
            assert(r.sizes() =~= Seq::<i64>::empty());
        }
        r
    }

    pub fn len(&self) -> (n: usize)
        requires
            self.wf(),
        ensures
            n == self.toks().len(),
    {
        self.toks.len()
    }

    pub fn is_empty(&self) -> (b: bool)
        requires
            self.wf(),
        ensures
            b == (self.toks().len() == 0),
    {
        self.toks.len() == 0
    }

    pub fn push(&mut self, t: Token, size: i64)
        requires
            old(self).wf(),
        ensures
            final(self).wf(),
            final(self).toks() == old(self).toks().push(t@),
            final(self).sizes() == old(self).sizes().push(size),
    {
        let ghost gt = t@;
        self.toks.push(t);
        self.sizes.push(size);
        proof {
            assert(final(self).toks() =~= old(self).toks().push(gt));
        }
    }

    /// Dequeue the front token. Its size must be resolved already: popping an
    /// unresolved entry is a contract violation of the layout algorithm.
    pub fn pop_front(&mut self) -> (r: (Token, i64))
        requires
            old(self).wf(),
            old(self).toks().len() > 0,
            old(self).sizes()[0] >= 0,
        ensures
            final(self).wf(),
            r.0@ == old(self).toks()[0],
            r.1 == old(self).sizes()[0],
            final(self).toks() == old(self).toks().skip(1),
            final(self).sizes() == old(self).sizes().skip(1),
    {
        let t = self.toks.remove(0);
        let s = self.sizes.remove(0);
        proof {
            assert(final(self).toks() =~= old(self).toks().skip(1));
            assert(final(self).sizes() =~= old(self).sizes().skip(1));
        }
        (t, s)
    }

    /// Drop the most recently pushed entry.
    pub fn pop_back(&mut self) -> (r: (Token, i64))
        requires
            old(self).wf(),
            old(self).toks().len() > 0,
        ensures
            final(self).wf(),
            r.0@ == old(self).toks().last(),
            r.1 == old(self).sizes().last(),
            final(self).toks() == old(self).toks().drop_last(),
            final(self).sizes() == old(self).sizes().drop_last(),
    {
        let t = self.toks.pop().unwrap();
        let s = self.sizes.pop().unwrap();
        proof {
            assert(final(self).toks() =~= old(self).toks().drop_last());
        }
        (t, s)
    }

    pub fn size_at(&self, i: usize) -> (s: i64)
        requires
            self.wf(),
            i < self.toks().len(),
        ensures
            s == self.sizes()[i as int],
    {
        self.sizes[i]
    }

    pub fn set_size(&mut self, i: usize, v: i64)
        requires
            old(self).wf(),
            i < old(self).toks().len(),
        ensures
            final(self).wf(),
            final(self).toks() == old(self).toks(),
            final(self).sizes() == old(self).sizes().update(i as int, v),
    {
        self.sizes[i] = v;
    }

    pub fn set_token(&mut self, i: usize, t: Token)
        requires
            old(self).wf(),
            i < old(self).toks().len(),
        ensures
            final(self).wf(),
            final(self).toks() == old(self).toks().update(i as int, t@),
            final(self).sizes() == old(self).sizes(),
    {
        let ghost gt = t@;
        self.toks[i] = t;
        proof {
            assert(final(self).toks() =~= old(self).toks().update(i as int, gt));
        }
    }

    pub fn token_at(&self, i: usize) -> (t: &Token)
        requires
            self.wf(),
            i < self.toks().len(),
        ensures
            t@ == self.toks()[i as int],
    {
        &self.toks[i]
    }

    pub fn clear(&mut self)
        requires
            old(self).wf(),
        ensures
            final(self).wf(),
            final(self).toks() == Seq::<Instr>::empty(),
            final(self).sizes() == Seq::<i64>::empty(),
    {
        self.toks.clear();
        self.sizes.clear();
        proof {
            assert(final(self).toks() =~= Seq::<Instr>::empty());
        }
    }
}

} // verus!
