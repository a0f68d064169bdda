//! The byte stream endpoints of the transcoding layer: an in-memory source
//! of bytes that is consumed front to back, and the error surfaced when it
//! runs out.  The sink side needs no type of its own: encoding appends to a
//! caller-supplied `Vec<u8>`.

use vstd::prelude::*;

verus! {

/// The single error of the transcoding layer: the source was exhausted
/// before the bytes required by the value's fixed- or prefixed-width
/// encoding were available.
#[derive(Clone, Copy, Debug, PartialEq, Eq, Structural)]
pub enum TranscodeError {
    UnexpectedEnd,
}

/// An in-memory readable source: a byte buffer consumed sequentially,
/// front to back, with no random access and no backward seeking.
pub struct ByteSource {
    data: Vec<u8>,
    pos: usize,
}

impl ByteSource {
    /// The read position never runs past the end of the buffer.
    pub closed spec fn wf(&self) -> bool {
        self.pos <= self.data@.len()
    }

    /// The bytes not yet consumed, in the order they will be read.
    pub closed spec fn remaining(&self) -> Seq<u8> {
        self.data@.skip(self.pos as int)
    }

    /// A source that will supply exactly the bytes of `data`, in order.
    pub fn new(data: Vec<u8>) -> (s: Self)
        ensures
            s.wf(),
            s.remaining() == data@,
    {
        let s = ByteSource { data, pos: 0 };
        proof {
            assert(s.remaining() =~= s.data@);
        }
        s
    }

    /// How many bytes are still available.
    pub fn remaining_len(&self) -> (n: usize)
        requires
            self.wf(),
        ensures
            n == self.remaining().len(),
    {
        self.data.len() - self.pos
    }

    /// Consume and return the next byte.
    pub fn read_byte(&mut self) -> (b: u8)
        requires
            old(self).wf(),
            old(self).remaining().len() >= 1,
        ensures
            final(self).wf(),
            b == old(self).remaining()[0],
            final(self).remaining() == old(self).remaining().skip(1),
    {
        let len = self.data.len();
        proof {
            assert(self.pos < len);
        }
        let b = self.data[self.pos];
        self.pos = self.pos + 1;
        proof {
            assert(self.remaining() =~= old(self).remaining().skip(1));
        }
        b
    }
}

} // verus!
