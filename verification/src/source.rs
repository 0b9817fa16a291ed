use crate::cid::bytes_copy;
use crate::error::IoFailure;
use vstd::prelude::*;
use vstd::slice::slice_subrange;

verus! {

/// A seekable source of bytes: the whole archive, and a position in it.
///
/// The position may stand past the end, as after a seek over a payload that
/// the archive does not hold; nothing can be read there.
#[derive(Debug)]
pub struct ByteSource {
    pub bytes: Vec<u8>,
    pub pos: u64,
}

/// The bytes of `bytes` from `pos` on; none where `pos` is past the end.
pub open spec fn bytes_from(bytes: Seq<u8>, pos: nat) -> Seq<u8> {
    if pos <= bytes.len() {
        bytes.subrange(pos as int, bytes.len() as int)
    } else {
        Seq::empty()
    }
}

impl ByteSource {
    /// A source over `bytes`, positioned at their start.
    pub fn new(bytes: Vec<u8>) -> (source: ByteSource)
        ensures
            source.bytes@ == bytes@,
            source.pos == 0,
    {
        ByteSource { bytes, pos: 0 }
    }

    /// The bytes in front of the position.
    pub open spec fn rest(&self) -> Seq<u8> {
        bytes_from(self.bytes@, self.pos as nat)
    }

    /// The current position.
    pub fn stream_position(&self) -> (pos: u64)
        ensures
            pos == self.pos,
    {
        self.pos
    }

    /// Moves to the absolute position `pos`.
    pub fn seek(&mut self, pos: u64)
        ensures
            final(self).bytes == old(self).bytes,
            final(self).pos == pos,
    {
        self.pos = pos;
    }

    /// Moves `n` bytes forward, past the end if need be. Fails, and stays
    /// where it is, if the new position would not fit in 64 bits.
    pub fn seek_forward(&mut self, n: usize) -> (moved: Result<u64, IoFailure>)
        ensures
            final(self).bytes == old(self).bytes,
            match moved {
                Ok(pos) => {
                    &&& old(self).pos + n <= u64::MAX
                    &&& pos == old(self).pos + n
                    &&& final(self).pos == pos
                },
                Err(failure) => {
                    &&& old(self).pos + n > u64::MAX
                    &&& failure == IoFailure::InvalidInput
                    &&& final(self).pos == old(self).pos
                },
            },
    {
        match self.pos.checked_add(n as u64) {
            Some(pos) => {
                self.pos = pos;
                Ok(pos)
            },
            None => Err(IoFailure::InvalidInput),
        }
    }

    /// The bytes in front of the position, without moving.
    pub fn remaining(&self) -> (rest: &[u8])
        ensures
            rest@ == self.rest(),
    {
        let len = self.bytes.len();
        if self.pos <= len as u64 {
            slice_subrange(self.bytes.as_slice(), self.pos as usize, len)
        } else {
            slice_subrange(self.bytes.as_slice(), len, len)
        }
    }

    /// Reads exactly `n` bytes and moves past them. Fails, and stays where it
    /// is, if fewer than `n` bytes are in front of the position.
    pub fn read_exact(&mut self, n: usize) -> (read: Result<Vec<u8>, IoFailure>)
        ensures
            final(self).bytes == old(self).bytes,
            match read {
                Ok(data) => {
                    &&& n <= old(self).rest().len()
                    &&& data@ == old(self).rest().subrange(0, n as int)
                    &&& final(self).pos == old(self).pos + n
                },
                Err(failure) => {
                    &&& n > old(self).rest().len()
                    &&& failure == IoFailure::UnexpectedEof
                    &&& final(self).pos == old(self).pos
                },
            },
    {
        let len = self.bytes.len();
        let start = if self.pos <= len as u64 {
            self.pos as usize
        } else {
            len
        };
        if n > len - start {
            return Err(IoFailure::UnexpectedEof);
        }
        let data = bytes_copy(slice_subrange(self.bytes.as_slice(), start, start + n));
        if n > 0 {
            self.pos = (start + n) as u64;
        }
        assert(data@ == old(self).rest().subrange(0, n as int));
        Ok(data)
    }
}

} // verus!
