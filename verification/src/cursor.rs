//! The byte cursor: the only input primitive the decoder needs.
//!
//! A `ByteCursor` owns a byte sequence and a position.  Reading past the end
//! is the decoder's "I/O failure": the cursor reports exhaustion instead of
//! returning short data.

use vstd::prelude::*;

verus! {

pub struct ByteCursor {
    bytes: Vec<u8>,
    pos: usize,
}

impl ByteCursor {
    /// The full underlying byte sequence.
    pub closed spec fn data(self) -> Seq<u8> {
        self.bytes@
    }

    /// The current read position.
    pub closed spec fn at(self) -> int {
        self.pos as int
    }

    /// How many bytes are left to read.
    pub open spec fn remaining(self) -> int {
        self.data().len() - self.at()
    }

    /// A position is an index into the bytes and is never negative.
    pub broadcast proof fn lemma_at_nonneg(c: ByteCursor)
        ensures
            #[trigger] c.at() >= 0,
    {
    }

    /// A cursor over the given bytes, positioned at the start.
    pub fn new(bytes: Vec<u8>) -> (c: ByteCursor)
        ensures
            c.data() == bytes@,
            c.at() == 0,
    {
        ByteCursor { bytes, pos: 0 }
    }

    /// Read exactly one byte, or report exhaustion.
    pub fn read_one_byte(&mut self) -> (r: Option<u8>)
        ensures
            final(self).data() == old(self).data(),
            old(self).at() < old(self).data().len() ==> {
                &&& r == Some(old(self).data()[old(self).at()])
                &&& final(self).at() == old(self).at() + 1
            },
            old(self).at() >= old(self).data().len() ==> {
                &&& r is None
                &&& final(self).at() == old(self).at()
            },
    {
        if self.pos < self.bytes.len() {
            let b = self.bytes[self.pos];
            self.pos = self.pos + 1;
            Some(b)
        } else {
            None
        }
    }

    /// Read exactly `n` bytes, or report exhaustion; never a short read.
    pub fn read_exact(&mut self, n: usize) -> (r: Option<Vec<u8>>)
        ensures
            final(self).data() == old(self).data(),
            old(self).at() + n <= old(self).data().len() ==> {
                &&& r matches Some(v) && v@ == old(self).data().subrange(
                    old(self).at(),
                    old(self).at() + n,
                )
                &&& final(self).at() == old(self).at() + n
            },
            old(self).at() + n > old(self).data().len() ==> {
                &&& r is None
                &&& final(self).at() == old(self).at()
            },
    {
        if self.pos <= self.bytes.len() && n <= self.bytes.len() - self.pos {
            let mut out: Vec<u8> = Vec::new();
            let mut i: usize = 0;
            while i < n
                invariant
                    0 <= i <= n,
                    self.pos + n <= self.bytes.len(),
                    out@ == self.bytes@.subrange(self.pos as int, self.pos + i),
                decreases n - i,
            {
                let b = self.bytes[self.pos + i];
                out.push(b);
                i = i + 1;
                proof {
                    assert(out@ =~= self.bytes@.subrange(self.pos as int, self.pos + i));
                }
            }
            self.pos = self.pos + n;
            Some(out)
        } else {
            None
        }
    }
}

} // verus!
