use vstd::prelude::*;

verus! {

/// An in-memory byte stream: an ordered source of bytes consumed from the
/// front, one or many at a time, with no pushback or peeking. The view is the
/// sequence of bytes not yet consumed.
pub struct ByteStream {
    data: Vec<u8>,
    pos: usize,
}

impl View for ByteStream {
    type V = Seq<u8>;

    closed spec fn view(&self) -> Seq<u8> {
        self.data@.skip(self.pos as int)
    }
}

impl ByteStream {
    /// The consumed prefix never runs past the end of the buffer.
    pub closed spec fn wf(&self) -> bool {
        self.pos <= self.data.len()
    }

    /// Wraps a buffer as a stream positioned at its first byte.
    pub fn new(data: Vec<u8>) -> (s: ByteStream)
        ensures
            s.wf(),
            s@ == data@,
    {
        let s = ByteStream { data, pos: 0 };
        proof {
            assert(s@ =~= s.data@);
        }
        s
    }

    /// How many bytes are still unread.
    pub fn remaining(&self) -> (n: usize)
        requires
            self.wf(),
        ensures
            n == self@.len(),
    {
        self.data.len() - self.pos
    }

    /// Consumes and returns the next byte, or `None` at the end of the stream.
    pub fn next_byte(&mut self) -> (r: Option<u8>)
        requires
            old(self).wf(),
        ensures
            final(self).wf(),
            match r {
                Some(b) => old(self)@.len() > 0 && b == old(self)@[0] && final(self)@
                    == old(self)@.drop_first(),
                None => old(self)@.len() == 0 && final(self)@ == old(self)@,
            },
    {
        if self.pos < self.data.len() {
            let b = self.data[self.pos];
            self.pos = self.pos + 1;
            proof {
                assert(self@ =~= old(self)@.drop_first());
            }
            Some(b)
        } else {
            None
        }
    }
}

} // verus!
