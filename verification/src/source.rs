//! The byte source that every decoder draws from, and the two ways a
//! decode can fail.

use vstd::prelude::*;
use vstd::bytes::*;

verus! {

/// Why a decode failed.
#[derive(Clone, Copy, Debug, PartialEq, Eq, Structural)]
pub enum DecodeError {
    /// The source ran out of bytes before the current field was complete.
    Truncated,
    /// A declared length or count exceeds its defensive bound.
    InvalidData,
}

/// What a two-byte little-endian read yields on a byte sequence:
/// the value and the bytes consumed, or the truncation error.
pub open spec fn spec_decode_u16(s: Seq<u8>) -> Result<(u16, nat), DecodeError> {
    if s.len() < 2 {
        Err(DecodeError::Truncated)
    } else {
        Ok((spec_u16_from_le_bytes(s.take(2)), 2))
    }
}

/// What a four-byte little-endian read yields on a byte sequence.
pub open spec fn spec_decode_u32(s: Seq<u8>) -> Result<(u32, nat), DecodeError> {
    if s.len() < 4 {
        Err(DecodeError::Truncated)
    } else {
        Ok((spec_u32_from_le_bytes(s.take(4)), 4))
    }
}

/// What an eight-byte little-endian read yields on a byte sequence.
pub open spec fn spec_decode_u64(s: Seq<u8>) -> Result<(u64, nat), DecodeError> {
    if s.len() < 8 {
        Err(DecodeError::Truncated)
    } else {
        Ok((spec_u64_from_le_bytes(s.take(8)), 8))
    }
}

/// A fixed-width read fails, with the truncated-input error and no
/// other, exactly when fewer bytes remain than the field needs.
pub proof fn lemma_fixed_width_truncation(s: Seq<u8>)
    ensures
        spec_decode_u16(s) is Err <==> s.len() < 2,
        s.len() < 2 ==> spec_decode_u16(s) == Err::<(u16, nat), DecodeError>(DecodeError::Truncated),
        spec_decode_u32(s) is Err <==> s.len() < 4,
        s.len() < 4 ==> spec_decode_u32(s) == Err::<(u32, nat), DecodeError>(DecodeError::Truncated),
        spec_decode_u64(s) is Err <==> s.len() < 8,
        s.len() < 8 ==> spec_decode_u64(s) == Err::<(u64, nat), DecodeError>(DecodeError::Truncated),
{
}

/// A sequential, forward-only reader over a borrowed byte buffer.
/// Decoders consume bytes from the front; nothing is ever re-read.
pub struct ByteSource<'a> {
    bytes: &'a [u8],
    pos: usize,
}

impl<'a> ByteSource<'a> {
    /// The read position never passes the end of the buffer.
    pub closed spec fn wf(self) -> bool {
        self.pos <= self.bytes@.len()
    }

    /// The bytes not yet consumed, in the order they will be read.
    pub closed spec fn remaining(self) -> Seq<u8> {
        self.bytes@.skip(self.pos as int)
    }

    /// A fresh source over `bytes`, with nothing consumed yet.
    pub fn new(bytes: &'a [u8]) -> (s: ByteSource<'a>)
        ensures
            s.wf(),
            s.remaining() == bytes@,
    {
        let s = ByteSource { bytes, pos: 0 };
        proof {
            assert(s.remaining() =~= bytes@);
        }
        s
    }

    /// How many bytes are left to read.
    pub fn remaining_len(&self) -> (n: usize)
        requires
            self.wf(),
        ensures
            n == self.remaining().len(),
    {
        self.bytes.len() - self.pos
    }

    /// Reads a single byte.
    pub fn read_u8(&mut self) -> (r: Result<u8, DecodeError>)
        requires
            old(self).wf(),
        ensures
            final(self).wf(),
            match r {
                Ok(v) => {
                    &&& old(self).remaining().len() >= 1
                    &&& v == old(self).remaining()[0]
                    &&& final(self).remaining() == old(self).remaining().skip(1)
                },
                Err(e) => {
                    &&& e == DecodeError::Truncated
                    &&& old(self).remaining().len() == 0
                    &&& final(self).remaining() == old(self).remaining()
                },
            },
    {
        if self.pos >= self.bytes.len() {
            return Err(DecodeError::Truncated);
        }
        let v = self.bytes[self.pos];
        self.pos = self.pos + 1;
        proof {
            assert(self.remaining() =~= old(self).remaining().skip(1));
        }
        Ok(v)
    }

    /// Reads exactly `n` bytes into an owned buffer, or fails without
    /// consuming anything when fewer than `n` remain.
    pub fn take_bytes(&mut self, n: usize) -> (r: Result<Vec<u8>, DecodeError>)
        requires
            old(self).wf(),
        ensures
            final(self).wf(),
            match r {
                Ok(v) => {
                    &&& old(self).remaining().len() >= n
                    &&& v@ == old(self).remaining().take(n as int)
                    &&& final(self).remaining() == old(self).remaining().skip(n as int)
                },
                Err(e) => {
                    &&& e == DecodeError::Truncated
                    &&& old(self).remaining().len() < n
                    &&& final(self).remaining() == old(self).remaining()
                },
            },
    {
        if self.bytes.len() - self.pos < n {
            return Err(DecodeError::Truncated);
        }
        let s = &self.bytes[self.pos..self.pos + n];
        let v = vstd::slice::slice_to_vec(s);
        self.pos = self.pos + n;
        proof {
            assert(v@ =~= old(self).remaining().take(n as int));
            assert(self.remaining() =~= old(self).remaining().skip(n as int));
        }
        Ok(v)
    }

    /// Reads a two-byte little-endian unsigned integer.
    pub fn read_u16_le(&mut self) -> (r: Result<u16, DecodeError>)
        requires
            old(self).wf(),
        ensures
            final(self).wf(),
            match r {
                Ok(v) => {
                    &&& spec_decode_u16(old(self).remaining()) == Ok::<(u16, nat), DecodeError>((v, 2))
                    &&& final(self).remaining() == old(self).remaining().skip(2)
                },
                Err(e) => {
                    &&& spec_decode_u16(old(self).remaining()) == Err::<(u16, nat), DecodeError>(e)
                    &&& final(self).remaining() == old(self).remaining()
                },
            },
    {
        if self.bytes.len() - self.pos < 2 {
            return Err(DecodeError::Truncated);
        }
        let s = &self.bytes[self.pos..self.pos + 2];
        let v = u16_from_le_bytes(s);
        self.pos = self.pos + 2;
        proof {
            assert(s@ =~= old(self).remaining().take(2));
            assert(self.remaining() =~= old(self).remaining().skip(2));
        }
        Ok(v)
    }

    /// Reads a four-byte little-endian unsigned integer.
    pub fn read_u32_le(&mut self) -> (r: Result<u32, DecodeError>)
        requires
            old(self).wf(),
        ensures
            final(self).wf(),
            match r {
                Ok(v) => {
                    &&& spec_decode_u32(old(self).remaining()) == Ok::<(u32, nat), DecodeError>((v, 4))
                    &&& final(self).remaining() == old(self).remaining().skip(4)
                },
                Err(e) => {
                    &&& spec_decode_u32(old(self).remaining()) == Err::<(u32, nat), DecodeError>(e)
                    &&& final(self).remaining() == old(self).remaining()
                },
            },
    {
        if self.bytes.len() - self.pos < 4 {
            return Err(DecodeError::Truncated);
        }
        let s = &self.bytes[self.pos..self.pos + 4];
        let v = u32_from_le_bytes(s);
        self.pos = self.pos + 4;
        proof {
            assert(s@ =~= old(self).remaining().take(4));
            assert(self.remaining() =~= old(self).remaining().skip(4));
        }
        Ok(v)
    }

    /// Reads an eight-byte little-endian unsigned integer.
    pub fn read_u64_le(&mut self) -> (r: Result<u64, DecodeError>)
        requires
            old(self).wf(),
        ensures
            final(self).wf(),
            match r {
                Ok(v) => {
                    &&& spec_decode_u64(old(self).remaining()) == Ok::<(u64, nat), DecodeError>((v, 8))
                    &&& final(self).remaining() == old(self).remaining().skip(8)
                },
                Err(e) => {
                    &&& spec_decode_u64(old(self).remaining()) == Err::<(u64, nat), DecodeError>(e)
                    &&& final(self).remaining() == old(self).remaining()
                },
            },
    {
        if self.bytes.len() - self.pos < 8 {
            return Err(DecodeError::Truncated);
        }
        let s = &self.bytes[self.pos..self.pos + 8];
        let v = u64_from_le_bytes(s);
        self.pos = self.pos + 8;
        proof {
            assert(s@ =~= old(self).remaining().take(8));
            assert(self.remaining() =~= old(self).remaining().skip(8));
        }
        Ok(v)
    }
}

} // verus!
