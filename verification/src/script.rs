//! Length-prefixed byte blobs and fixed 32-byte hashes: the two leaf
//! fields that transaction inputs and outputs are built from.

use vstd::prelude::*;
use crate::source::{ByteSource, DecodeError};
use crate::varint::{spec_decode_varint, deserialize_varint};

verus! {

/// The longest script the decoder accepts.  The bound mirrors the
/// protocol's consensus limit and rejects corrupt length claims before
/// any allocation sized by them.
pub const MAX_SCRIPT_LEN: u64 = 10_000;

/// What the Script encoding means on a byte sequence: a VarInt length,
/// held to `MAX_SCRIPT_LEN`, then that many raw bytes.
pub open spec fn spec_decode_script(s: Seq<u8>) -> Result<(Seq<u8>, nat), DecodeError> {
    match spec_decode_varint(s) {
        Err(e) => Err(e),
        Ok((len, n)) => {
            if len > MAX_SCRIPT_LEN {
                Err(DecodeError::InvalidData)
            } else if s.len() < n + len {
                Err(DecodeError::Truncated)
            } else {
                Ok((s.subrange(n as int, n as int + len as int), (n + len) as nat))
            }
        },
    }
}

/// What a 32-byte hash read means on a byte sequence: the first 32
/// bytes, with no prefix and no further validation.
pub open spec fn spec_decode_hash(s: Seq<u8>) -> Result<(Seq<u8>, nat), DecodeError> {
    if s.len() < 32 {
        Err(DecodeError::Truncated)
    } else {
        Ok((s.take(32), 32))
    }
}

/// The declared-length bound and truncation behaviour of the script
/// decode: a length prefix over the bound fails with the data-validity
/// error whatever bytes follow; a length within the bound fails only
/// by truncation, exactly when the source holds fewer body bytes than
/// declared; a failing length prefix fails the script the same way.
pub proof fn lemma_script_bounds(s: Seq<u8>)
    ensures
        spec_decode_varint(s) matches Ok(p) && p.0 > MAX_SCRIPT_LEN ==> spec_decode_script(s)
            == Err::<(Seq<u8>, nat), DecodeError>(DecodeError::InvalidData),
        spec_decode_varint(s) matches Ok(p) && p.0 <= MAX_SCRIPT_LEN && s.len() >= p.1 + p.0
            ==> spec_decode_script(s) is Ok,
        spec_decode_varint(s) matches Ok(p) && p.0 <= MAX_SCRIPT_LEN && s.len() < p.1 + p.0
            ==> spec_decode_script(s) == Err::<(Seq<u8>, nat), DecodeError>(DecodeError::Truncated),
        spec_decode_varint(s) matches Err(e) ==> spec_decode_script(s) == Err::<
            (Seq<u8>, nat),
            DecodeError,
        >(e),
{
}

/// A 32-byte hash read fails, with the truncated-input error, exactly
/// when fewer than 32 bytes remain.
pub proof fn lemma_hash_truncation(s: Seq<u8>)
    ensures
        spec_decode_hash(s) is Err <==> s.len() < 32,
        s.len() < 32 ==> spec_decode_hash(s) == Err::<(Seq<u8>, nat), DecodeError>(
            DecodeError::Truncated,
        ),
{
}

/// A script decoder reads only the bytes it consumes: cutting the
/// source at or after that point leaves the result unchanged, and
/// cutting earlier yields the truncated-input error.
pub proof fn lemma_script_prefix(s: Seq<u8>, m: int)
    requires
        0 <= m <= s.len(),
        spec_decode_script(s) is Ok,
    ensures
        m >= spec_decode_script(s)->Ok_0.1 ==> spec_decode_script(s.take(m)) == spec_decode_script(
            s,
        ),
        m < spec_decode_script(s)->Ok_0.1 ==> spec_decode_script(s.take(m)) == Err::<
            (Seq<u8>, nat),
            DecodeError,
        >(DecodeError::Truncated),
{
    let t = s.take(m);
    let len = spec_decode_varint(s)->Ok_0.0;
    let nv = spec_decode_varint(s)->Ok_0.1;
    crate::varint::lemma_varint_prefix(s, m);
    if m >= nv as int + len as int {
        assert(t.subrange(nv as int, nv as int + len as int) =~= s.subrange(
            nv as int,
            nv as int + len as int,
        ));
    }
}

/// A hash decoder reads only its 32 bytes: cutting the source at or
/// after them leaves the result unchanged, and cutting earlier yields
/// the truncated-input error.
pub proof fn lemma_hash_prefix(s: Seq<u8>, m: int)
    requires
        0 <= m <= s.len(),
        spec_decode_hash(s) is Ok,
    ensures
        m >= 32 ==> spec_decode_hash(s.take(m)) == spec_decode_hash(s),
        m < 32 ==> spec_decode_hash(s.take(m)) == Err::<(Seq<u8>, nat), DecodeError>(
            DecodeError::Truncated,
        ),
{
    if m >= 32 {
        assert(s.take(m).take(32) =~= s.take(32));
    }
}

/// An opaque spending-condition or unlocking byte blob.  The decoder
/// does not interpret it.
pub struct Script(pub Vec<u8>);

impl View for Script {
    type V = Seq<u8>;

    open spec fn view(&self) -> Seq<u8> {
        self.0@
    }
}

impl Script {
    /// Every decoded script observes the consensus length bound.
    pub open spec fn wf(self) -> bool {
        self@.len() <= MAX_SCRIPT_LEN
    }

    /// Decodes a length-prefixed script from the source.
    pub fn deserialize(reader: &mut ByteSource) -> (r: Result<Script, DecodeError>)
        requires
            old(reader).wf(),
        ensures
            final(reader).wf(),
            match r {
                Ok(sc) => {
                    &&& sc.wf()
                    &&& spec_decode_script(old(reader).remaining()) matches Ok(p) && sc@ == p.0
                        && final(reader).remaining() == old(reader).remaining().skip(p.1 as int)
                },
                Err(e) => spec_decode_script(old(reader).remaining()) == Err::<
                    (Seq<u8>, nat),
                    DecodeError,
                >(e),
            },
    {
        let ghost s = old(reader).remaining();
        let len = match deserialize_varint(reader) {
            Ok(v) => v,
            Err(e) => {
                return Err(e);
            },
        };
        if len > MAX_SCRIPT_LEN {
            return Err(DecodeError::InvalidData);
        }
        let ghost n = spec_decode_varint(s)->Ok_0.1;
        match reader.take_bytes(len as usize) {
            Ok(data) => {
                proof {
                    assert(s.skip(n as int).take(len as int) =~= s.subrange(
                        n as int,
                        n as int + len as int,
                    ));
                    assert(s.skip(n as int).skip(len as int) =~= s.skip(n as int + len as int));
                }
                Ok(Script(data))
            },
            Err(e) => Err(e),
        }
    }
}

/// A 256-bit identifier, held as its 32 raw bytes.
pub struct Hash256(pub [u8; 32]);

impl View for Hash256 {
    type V = Seq<u8>;

    open spec fn view(&self) -> Seq<u8> {
        self.0@
    }
}

impl Hash256 {
    /// Decodes a fixed 32-byte hash from the source.
    pub fn deserialize(reader: &mut ByteSource) -> (r: Result<Hash256, DecodeError>)
        requires
            old(reader).wf(),
        ensures
            final(reader).wf(),
            match r {
                Ok(h) => spec_decode_hash(old(reader).remaining()) matches Ok(p) && h@ == p.0
                    && final(reader).remaining() == old(reader).remaining().skip(p.1 as int),
                Err(e) => spec_decode_hash(old(reader).remaining()) == Err::<
                    (Seq<u8>, nat),
                    DecodeError,
                >(e) && final(reader).remaining() == old(reader).remaining(),
            },
    {
        let data = match reader.take_bytes(32) {
            Ok(d) => d,
            Err(e) => {
                return Err(e);
            },
        };
        let mut buf = [0u8; 32];
        let mut i: usize = 0;
        while i < 32
            invariant
                i <= 32,
                data@.len() == 32,
                buf@.len() == 32,
                forall|j: int| 0 <= j < i ==> buf@[j] == data@[j],
            decreases 32 - i,
        {
            buf[i] = data[i];
            i = i + 1;
        }
        proof {
            assert(buf@ =~= data@);
        }
        Ok(Hash256(buf))
    }
}

} // verus!
