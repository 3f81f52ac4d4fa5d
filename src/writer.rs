use vstd::prelude::*;

use crate::error::Error;

verus! {

/// A growable in-memory byte sink; writing to it cannot fail.
pub struct BufWriter {
    buf: Vec<u8>,
}

impl View for BufWriter {
    type V = Seq<u8>;

    closed spec fn view(&self) -> Seq<u8> {
        self.buf@
    }
}

impl BufWriter {
    /// An empty sink.
    pub fn new() -> (w: BufWriter)
        ensures
            w@ == Seq::<u8>::empty(),
    {
        BufWriter { buf: Vec::new() }
    }

    /// Appends `input`.
    pub fn push(&mut self, input: &[u8])
        ensures
            final(self)@ == old(self)@ + input@,
    {
        let mut i: usize = 0;
        while i < input.len()
            invariant
                i <= input@.len(),
                self.buf@ == old(self)@ + input@.subrange(0, i as int),
            decreases input@.len() - i,
        {
            self.buf.push(input[i]);
            i = i + 1;
            proof {
                assert(self.buf@ =~= old(self)@ + input@.subrange(0, i as int));
            }
        }
        proof {
            assert(input@.subrange(0, i as int) =~= input@);
        }
    }

    /// Appends one byte.
    pub fn push_byte(&mut self, b: u8)
        ensures
            final(self)@ == old(self)@.push(b),
    {
        self.buf.push(b);
    }

    /// Makes everything written so far visible through `get_ref`; in memory there is
    /// nothing to do, so this always succeeds.
    pub fn flush(&mut self) -> (r: Result<(), Error>)
        ensures
            r is Ok,
            final(self)@ == old(self)@,
    {
        Ok(())
    }

    /// The bytes written so far.
    pub fn get_ref(&self) -> (r: &Vec<u8>)
        ensures
            r@ == self@,
    {
        &self.buf
    }

    /// The bytes written, taking the sink apart.
    pub fn into_inner(self) -> (r: Vec<u8>)
        ensures
            r@ == self@,
    {
        self.buf
    }
}

} // verus!
