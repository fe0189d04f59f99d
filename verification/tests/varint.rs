use bitcoin_tx::source::{ByteSource, DecodeError};
use bitcoin_tx::varint::{deserialize_varint, serialize_varint};

fn round_trip(v: u64) -> (u64, usize) {
    let bytes = serialize_varint(v);
    let len = bytes.len();
    let mut src = ByteSource::new(bytes.as_slice());
    let out = deserialize_varint(&mut src).unwrap();
    assert_eq!(src.remaining_len(), 0);
    (out, len)
}

#[test]
fn varint_round_trip_one_byte_regime() {
    for v in [0u64, 1, 7, 128, 251, 252] {
        let (out, len) = round_trip(v);
        assert_eq!(out, v);
        assert_eq!(len, 1);
    }
}

#[test]
fn varint_round_trip_u16_regime() {
    for v in [253u64, 254, 255, 256, 300, 0x1234, 0xFFFF] {
        let (out, len) = round_trip(v);
        assert_eq!(out, v);
        assert_eq!(len, 3);
    }
}

#[test]
fn varint_round_trip_u32_regime() {
    for v in [0x10000u64, 1_000_000, 0xDEAD_BEEF, 0xFFFF_FFFF] {
        let (out, len) = round_trip(v);
        assert_eq!(out, v);
        assert_eq!(len, 5);
    }
}

#[test]
fn varint_round_trip_u64_regime() {
    for v in [0x1_0000_0000u64, 5_000_000_000, 0x0123_4567_89AB_CDEF, u64::MAX] {
        let (out, len) = round_trip(v);
        assert_eq!(out, v);
        assert_eq!(len, 9);
    }
}

#[test]
fn varint_boundary_252_is_single_byte() {
    let bytes = vec![252u8];
    let mut src = ByteSource::new(bytes.as_slice());
    assert_eq!(deserialize_varint(&mut src).unwrap(), 252);
    assert_eq!(src.remaining_len(), 0);
}

#[test]
fn varint_non_canonical_zero_accepted() {
    let bytes = vec![253u8, 0, 0];
    let mut src = ByteSource::new(bytes.as_slice());
    assert_eq!(deserialize_varint(&mut src).unwrap(), 0);
    assert_eq!(src.remaining_len(), 0);
}

#[test]
fn varint_empty_source_fails() {
    let bytes: Vec<u8> = Vec::new();
    let mut src = ByteSource::new(bytes.as_slice());
    assert!(matches!(deserialize_varint(&mut src), Err(DecodeError::Truncated)));
}

#[test]
fn varint_truncated_payloads_fail() {
    for bytes in [
        vec![253u8],
        vec![253u8, 0x01],
        vec![254u8, 1, 2, 3],
        vec![255u8, 1, 2, 3, 4, 5, 6, 7],
    ] {
        let mut src = ByteSource::new(bytes.as_slice());
        assert!(matches!(deserialize_varint(&mut src), Err(DecodeError::Truncated)));
    }
}
