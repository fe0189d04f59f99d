//! Bitcoin's compact variable-length unsigned integer: a one-byte
//! prefix announces whether the value is the byte itself (0 to 252) or
//! follows as a little-endian 16-, 32- or 64-bit payload.

use vstd::prelude::*;
use vstd::bytes::*;
use crate::source::{ByteSource, DecodeError};

verus! {

/// How many payload bytes follow a VarInt's first byte.
pub open spec fn varint_payload_len(tag: u8) -> nat {
    if tag == 253 {
        2
    } else if tag == 254 {
        4
    } else if tag == 255 {
        8
    } else {
        0
    }
}

/// What the VarInt encoding means on a byte sequence: the decoded
/// value and the bytes consumed, or the truncation error.  Every
/// payload wide enough for its value is accepted; the decoder does not
/// re-validate that the shortest form was used.
pub open spec fn spec_decode_varint(s: Seq<u8>) -> Result<(u64, nat), DecodeError> {
    if s.len() == 0 {
        Err(DecodeError::Truncated)
    } else if s[0] < 253 {
        Ok((s[0] as u64, 1))
    } else if s.len() < 1 + varint_payload_len(s[0]) {
        Err(DecodeError::Truncated)
    } else if s[0] == 253 {
        Ok((spec_u16_from_le_bytes(s.subrange(1, 3)) as u64, 3))
    } else if s[0] == 254 {
        Ok((spec_u32_from_le_bytes(s.subrange(1, 5)) as u64, 5))
    } else {
        Ok((spec_u64_from_le_bytes(s.subrange(1, 9)), 9))
    }
}

/// The canonical encoding of `v`: the shortest of the four forms that
/// holds it.
pub open spec fn spec_encode_varint(v: u64) -> Seq<u8> {
    if v <= 252 {
        seq![v as u8]
    } else if v <= 0xFFFF {
        seq![253u8] + spec_u16_to_le_bytes(v as u16)
    } else if v <= 0xFFFF_FFFF {
        seq![254u8] + spec_u32_to_le_bytes(v as u32)
    } else {
        seq![255u8] + spec_u64_to_le_bytes(v)
    }
}

/// Round trip: encoding any value and decoding it again, with any
/// bytes following, yields the value back and consumes exactly the
/// encoding, in each of the four encoding-length regimes.
pub proof fn lemma_varint_round_trip(v: u64, rest: Seq<u8>)
    ensures
        spec_decode_varint(spec_encode_varint(v) + rest) == Ok::<(u64, nat), DecodeError>(
            (v, spec_encode_varint(v).len()),
        ),
        spec_encode_varint(v).len() == (if v <= 252 {
            1nat
        } else if v <= 0xFFFF {
            3nat
        } else if v <= 0xFFFF_FFFF {
            5nat
        } else {
            9nat
        }),
{
    let s = spec_encode_varint(v) + rest;
    if v <= 252 {
        assert(s[0] == v as u8);
    } else if v <= 0xFFFF {
        lemma_auto_spec_u16_to_from_le_bytes();
        assert(s[0] == 253u8);
        assert(s.subrange(1, 3) =~= spec_u16_to_le_bytes(v as u16));
    } else if v <= 0xFFFF_FFFF {
        lemma_auto_spec_u32_to_from_le_bytes();
        assert(s[0] == 254u8);
        assert(s.subrange(1, 5) =~= spec_u32_to_le_bytes(v as u32));
    } else {
        lemma_auto_spec_u64_to_from_le_bytes();
        assert(s[0] == 255u8);
        assert(s.subrange(1, 9) =~= spec_u64_to_le_bytes(v));
    }
}

/// Truncation at the VarInt: decoding fails exactly when the source is
/// empty or ends inside the payload the first byte announces, and the
/// failure is always the truncated-input error.
pub proof fn lemma_varint_truncation(s: Seq<u8>)
    ensures
        spec_decode_varint(s) is Err <==> (s.len() == 0 || s.len() < 1 + varint_payload_len(s[0])),
        spec_decode_varint(s) is Err ==> spec_decode_varint(s) == Err::<(u64, nat), DecodeError>(
            DecodeError::Truncated,
        ),
{
}

/// A VarInt decoder reads only the bytes it consumes: cutting the
/// source at or after that point leaves the result unchanged, and
/// cutting earlier yields the truncated-input error.
pub proof fn lemma_varint_prefix(s: Seq<u8>, m: int)
    requires
        0 <= m <= s.len(),
        spec_decode_varint(s) is Ok,
    ensures
        m >= spec_decode_varint(s)->Ok_0.1 ==> spec_decode_varint(s.take(m)) == spec_decode_varint(
            s,
        ),
        m < spec_decode_varint(s)->Ok_0.1 ==> spec_decode_varint(s.take(m)) == Err::<
            (u64, nat),
            DecodeError,
        >(DecodeError::Truncated),
{
    let t = s.take(m);
    let n = spec_decode_varint(s)->Ok_0.1;
    if m >= n as int {
        assert(t[0] == s[0]);
        if s[0] == 253 {
            assert(t.subrange(1, 3) =~= s.subrange(1, 3));
        } else if s[0] == 254 {
            assert(t.subrange(1, 5) =~= s.subrange(1, 5));
        } else if s[0] == 255 {
            assert(t.subrange(1, 9) =~= s.subrange(1, 9));
        }
    } else if m > 0 {
        assert(t[0] == s[0]);
    }
}

/// Decodes a VarInt from the source.
pub fn deserialize_varint(reader: &mut ByteSource) -> (r: Result<u64, DecodeError>)
    requires
        old(reader).wf(),
    ensures
        final(reader).wf(),
        match r {
            Ok(v) => spec_decode_varint(old(reader).remaining()) matches Ok(p) && v == p.0
                && final(reader).remaining() == old(reader).remaining().skip(p.1 as int),
            Err(e) => spec_decode_varint(old(reader).remaining()) == Err::<(u64, nat), DecodeError>(
                e,
            ),
        },
{
    let ghost s = old(reader).remaining();
    let tag = match reader.read_u8() {
        Ok(b) => b,
        Err(e) => {
            return Err(e);
        },
    };
    if tag < 253 {
        return Ok(tag as u64);
    }
    if tag == 253 {
        match reader.read_u16_le() {
            Ok(v) => {
                proof {
                    assert(s.skip(1).take(2) =~= s.subrange(1, 3));
                    assert(s.skip(1).skip(2) =~= s.skip(3));
                }
                Ok(v as u64)
            },
            Err(e) => Err(e),
        }
    } else if tag == 254 {
        match reader.read_u32_le() {
            Ok(v) => {
                proof {
                    assert(s.skip(1).take(4) =~= s.subrange(1, 5));
                    assert(s.skip(1).skip(4) =~= s.skip(5));
                }
                Ok(v as u64)
            },
            Err(e) => Err(e),
        }
    } else {
        match reader.read_u64_le() {
            Ok(v) => {
                proof {
                    assert(s.skip(1).take(8) =~= s.subrange(1, 9));
                    assert(s.skip(1).skip(8) =~= s.skip(9));
                }
                Ok(v)
            },
            Err(e) => Err(e),
        }
    }
}

/// Encodes a value in the shortest VarInt form that holds it.
pub fn serialize_varint(v: u64) -> (r: Vec<u8>)
    ensures
        r@ == spec_encode_varint(v),
{
    let mut out: Vec<u8> = Vec::new();
    if v <= 252 {
        out.push(v as u8);
        proof {
            assert(out@ =~= spec_encode_varint(v));
        }
    } else if v <= 0xFFFF {
        out.push(253);
        let mut b = u16_to_le_bytes(v as u16);
        out.append(&mut b);
        proof {
            assert(out@ =~= spec_encode_varint(v));
        }
    } else if v <= 0xFFFF_FFFF {
        out.push(254);
        let mut b = u32_to_le_bytes(v as u32);
        out.append(&mut b);
        proof {
            assert(out@ =~= spec_encode_varint(v));
        }
    } else {
        out.push(255);
        let mut b = u64_to_le_bytes(v);
        out.append(&mut b);
        proof {
            assert(out@ =~= spec_encode_varint(v));
        }
    }
    out
}

} // verus!
