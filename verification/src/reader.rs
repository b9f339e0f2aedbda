//! Reading a trail front to back.

use crate::wire::be_u32;
use crate::wire::u32_at;
use vstd::prelude::*;
use vstd::slice::slice_subrange;
use vstd::slice::slice_to_vec;

verus! {

/// A trail held in memory, with the position up to which it has been
/// consumed. The position is the absolute offset that diagnostics report.
#[derive(Debug)]
pub struct TrailReader {
    data: Vec<u8>,
    offset: usize,
}

impl TrailReader {
    #[verifier::type_invariant]
    spec fn in_bounds(self) -> bool {
        self.offset <= self.data@.len()
    }

    /// All bytes of the trail.
    pub closed spec fn data(&self) -> Seq<u8> {
        self.data@
    }

    /// Number of bytes already consumed, which is the absolute offset of the
    /// next byte.
    pub closed spec fn position(&self) -> nat {
        self.offset as nat
    }

    /// A reader at the start of `data`.
    pub fn new(data: Vec<u8>) -> (reader: TrailReader)
        ensures
            reader.data() == data@,
            reader.position() == 0,
    {
        TrailReader { data, offset: 0 }
    }

    /// The absolute offset of the next byte.
    pub fn offset(&self) -> (offset: usize)
        ensures
            offset == self.position(),
            offset <= self.data().len(),
    {
        proof {
            use_type_invariant(self);
        }
        self.offset
    }

    /// Number of bytes not yet consumed.
    pub fn remaining(&self) -> (n: usize)
        ensures
            n == self.data().len() - self.position(),
    {
        proof {
            use_type_invariant(self);
        }
        self.data.len() - self.offset
    }

    /// Whether every byte has been consumed.
    pub fn is_at_end(&self) -> (done: bool)
        ensures
            done == (self.position() >= self.data().len()),
    {
        proof {
            use_type_invariant(self);
        }
        self.offset == self.data.len()
    }

    /// The byte that lies `ahead` bytes behind the next one, without
    /// consuming anything; `None` where the trail ends before it.
    pub fn peek(&self, ahead: usize) -> (byte: Option<u8>)
        ensures
            byte == (if self.position() + ahead < self.data().len() {
                Some(self.data()[self.position() + ahead])
            } else {
                None
            }),
    {
        proof {
            use_type_invariant(self);
        }
        if ahead < self.data.len() - self.offset {
            Some(self.data[self.offset + ahead])
        } else {
            None
        }
    }

    /// The 32-bit big-endian field that starts `ahead` bytes behind the next
    /// byte, without consuming anything; `None` where the trail ends before
    /// the field does.
    pub fn peek_u32(&self, ahead: usize) -> (value: Option<u32>)
        ensures
            value == (if self.position() + ahead + 4 <= self.data().len() {
                Some(be_u32(self.data(), self.position() + ahead))
            } else {
                None
            }),
    {
        proof {
            use_type_invariant(self);
        }
        let left: usize = self.data.len() - self.offset;
        if left >= 4 && ahead <= left - 4 {
            Some(u32_at(self.data.as_slice(), self.offset + ahead))
        } else {
            None
        }
    }

    /// Consumes the next `n` bytes and hands them out. Where fewer than `n`
    /// bytes are left, nothing is consumed and nothing handed out.
    pub fn take(&mut self, n: usize) -> (bytes: Option<Vec<u8>>)
        ensures
            final(self).data() == old(self).data(),
            match bytes {
                Some(bytes) => {
                    &&& old(self).position() + n <= old(self).data().len()
                    &&& bytes@ == old(self).data().subrange(
                        old(self).position() as int,
                        old(self).position() + n,
                    )
                    &&& final(self).position() == old(self).position() + n
                },
                None => {
                    &&& old(self).position() + n > old(self).data().len()
                    &&& final(self).position() == old(self).position()
                },
            },
    {
        proof {
            use_type_invariant(&*self);
        }
        if n > self.data.len() - self.offset {
            return None;
        }
        let end: usize = self.offset + n;
        let bytes = slice_to_vec(slice_subrange(self.data.as_slice(), self.offset, end));
        self.offset = end;
        Some(bytes)
    }

    /// Moves `n` bytes forward without looking at them. Where fewer than `n`
    /// bytes are left, the reader stays and the result is `false`.
    pub fn advance(&mut self, n: usize) -> (moved: bool)
        ensures
            final(self).data() == old(self).data(),
            moved == (old(self).position() + n <= old(self).data().len()),
            final(self).position() == (if moved {
                old(self).position() + n
            } else {
                old(self).position() as int
            }),
    {
        proof {
            use_type_invariant(&*self);
        }
        if n > self.data.len() - self.offset {
            return false;
        }
        self.offset = self.offset + n;
        true
    }

    /// Gives up on what is left of the trail: the reader moves to its end.
    pub fn abandon(&mut self)
        ensures
            final(self).data() == old(self).data(),
            final(self).position() == old(self).data().len(),
    {
        self.offset = self.data.len();
    }
}

} // verus!
