use bitcoin_tx::script::{Hash256, Script};
use bitcoin_tx::source::{ByteSource, DecodeError};
use bitcoin_tx::tx::{Outpoint, Transaction, TxInput, TxOutput};

/// The canonical single-input, single-output transaction: version 1,
/// one input spending output 0xFFFFFFFF of the zero txid with an empty
/// script and max sequence, one output of 5_000_000_000 units with a
/// five-byte script, lock time 0.
fn canonical_tx_bytes() -> Vec<u8> {
    let mut b: Vec<u8> = Vec::new();
    b.extend_from_slice(&[0x01, 0x00, 0x00, 0x00]); // version = 1
    b.push(0x01); // input count
    b.extend_from_slice(&[0u8; 32]); // txid
    b.extend_from_slice(&[0xFF, 0xFF, 0xFF, 0xFF]); // index
    b.push(0x00); // empty signature script
    b.extend_from_slice(&[0xFF, 0xFF, 0xFF, 0xFF]); // sequence
    b.push(0x01); // output count
    b.extend_from_slice(&[0x00, 0xF2, 0x05, 0x2A, 0x01, 0x00, 0x00, 0x00]); // 5_000_000_000
    b.push(0x05); // script length
    b.extend_from_slice(&[0x76, 0xA9, 0x14, 0x88, 0xAC]); // script body
    b.extend_from_slice(&[0x00, 0x00, 0x00, 0x00]); // lock time
    b
}

#[test]
fn hash_reads_exactly_32_bytes() {
    let bytes: Vec<u8> = (0u8..33).collect();
    let mut src = ByteSource::new(bytes.as_slice());
    let h = Hash256::deserialize(&mut src).unwrap();
    let expect: Vec<u8> = (0u8..32).collect();
    assert_eq!(h.0.to_vec(), expect);
    assert_eq!(src.remaining_len(), 1);
}

#[test]
fn hash_truncated_fails() {
    let bytes = vec![7u8; 31];
    let mut src = ByteSource::new(bytes.as_slice());
    assert!(matches!(Hash256::deserialize(&mut src), Err(DecodeError::Truncated)));
}

#[test]
fn script_empty_ok() {
    let bytes = vec![0u8];
    let mut src = ByteSource::new(bytes.as_slice());
    let s = Script::deserialize(&mut src).unwrap();
    assert!(s.0.is_empty());
    assert_eq!(src.remaining_len(), 0);
}

#[test]
fn script_at_exact_bound_ok() {
    let mut bytes = vec![253u8, 0x10, 0x27]; // length 10_000
    bytes.extend(std::iter::repeat(0xABu8).take(10_000));
    let mut src = ByteSource::new(bytes.as_slice());
    let s = Script::deserialize(&mut src).unwrap();
    assert_eq!(s.0.len(), 10_000);
    assert!(s.0.iter().all(|&b| b == 0xAB));
    assert_eq!(src.remaining_len(), 0);
}

#[test]
fn script_over_bound_rejected_before_body() {
    // Declared length 10_001 with no body bytes at all: the error is
    // the data-validity one, not truncation, so the body was never read.
    let bytes = vec![253u8, 0x11, 0x27];
    let mut src = ByteSource::new(bytes.as_slice());
    assert!(matches!(Script::deserialize(&mut src), Err(DecodeError::InvalidData)));
}

#[test]
fn script_short_body_fails() {
    let bytes = vec![5u8, 1, 2, 3];
    let mut src = ByteSource::new(bytes.as_slice());
    assert!(matches!(Script::deserialize(&mut src), Err(DecodeError::Truncated)));
}

#[test]
fn outpoint_decode() {
    let mut bytes = vec![9u8; 32];
    bytes.extend_from_slice(&[0x02, 0x01, 0x00, 0x00]); // index 258
    let mut src = ByteSource::new(bytes.as_slice());
    let o = Outpoint::deserialize(&mut src).unwrap();
    assert_eq!(o.txid.0, [9u8; 32]);
    assert_eq!(o.index, 258);
    assert_eq!(src.remaining_len(), 0);
}

#[test]
fn outpoint_truncated_index_fails() {
    let mut bytes = vec![9u8; 32];
    bytes.extend_from_slice(&[0x02, 0x01]);
    let mut src = ByteSource::new(bytes.as_slice());
    assert!(matches!(Outpoint::deserialize(&mut src), Err(DecodeError::Truncated)));
}

#[test]
fn tx_input_decode() {
    let mut bytes = vec![3u8; 32];
    bytes.extend_from_slice(&[0x00, 0x00, 0x00, 0x00]); // index 0
    bytes.push(0x02); // script of two bytes
    bytes.extend_from_slice(&[0xAA, 0xBB]);
    bytes.extend_from_slice(&[0xFE, 0xFF, 0xFF, 0xFF]); // sequence
    let mut src = ByteSource::new(bytes.as_slice());
    let i = TxInput::deserialize(&mut src).unwrap();
    assert_eq!(i.outpoint.txid.0, [3u8; 32]);
    assert_eq!(i.outpoint.index, 0);
    assert_eq!(i.sig_script.0, vec![0xAA, 0xBB]);
    assert_eq!(i.sequence, 0xFFFF_FFFE);
    assert_eq!(src.remaining_len(), 0);
}

#[test]
fn tx_input_truncated_after_outpoint_fails() {
    // The outpoint decodes fine; the script body is missing.
    let mut bytes = vec![3u8; 32];
    bytes.extend_from_slice(&[0x00, 0x00, 0x00, 0x00]);
    bytes.push(0x02);
    bytes.push(0xAA);
    let mut src = ByteSource::new(bytes.as_slice());
    assert!(matches!(TxInput::deserialize(&mut src), Err(DecodeError::Truncated)));
}

#[test]
fn tx_output_decode() {
    let mut bytes = vec![0x40, 0x42, 0x0F, 0x00, 0x00, 0x00, 0x00, 0x00]; // 1_000_000
    bytes.push(0x01);
    bytes.push(0x6A);
    let mut src = ByteSource::new(bytes.as_slice());
    let o = TxOutput::deserialize(&mut src).unwrap();
    assert_eq!(o.satoshis, 1_000_000);
    assert_eq!(o.verify_script.0, vec![0x6A]);
    assert_eq!(src.remaining_len(), 0);
}

#[test]
fn transaction_end_to_end() {
    let bytes = canonical_tx_bytes();
    assert_eq!(bytes.len(), 65);
    let mut src = ByteSource::new(bytes.as_slice());
    let tx = Transaction::deserialize(&mut src).unwrap();
    assert_eq!(tx.version, 1);
    assert_eq!(tx.inputs.len(), 1);
    assert_eq!(tx.inputs[0].outpoint.txid.0, [0u8; 32]);
    assert_eq!(tx.inputs[0].outpoint.index, 0xFFFF_FFFF);
    assert!(tx.inputs[0].sig_script.0.is_empty());
    assert_eq!(tx.inputs[0].sequence, 0xFFFF_FFFF);
    assert_eq!(tx.outputs.len(), 1);
    assert_eq!(tx.outputs[0].satoshis, 5_000_000_000);
    assert_eq!(tx.outputs[0].verify_script.0, vec![0x76, 0xA9, 0x14, 0x88, 0xAC]);
    assert_eq!(tx.lock_time, 0);
    // every byte consumed, nothing left unread
    assert_eq!(src.remaining_len(), 0);
}

#[test]
fn transaction_decode_is_idempotent() {
    let bytes = canonical_tx_bytes();
    let copy = bytes.clone();
    let mut src1 = ByteSource::new(bytes.as_slice());
    let mut src2 = ByteSource::new(copy.as_slice());
    let t1 = Transaction::deserialize(&mut src1).unwrap();
    let t2 = Transaction::deserialize(&mut src2).unwrap();
    assert_eq!(t1.version, t2.version);
    assert_eq!(t1.lock_time, t2.lock_time);
    assert_eq!(t1.inputs.len(), t2.inputs.len());
    assert_eq!(t1.outputs.len(), t2.outputs.len());
    for (a, b) in t1.inputs.iter().zip(t2.inputs.iter()) {
        assert_eq!(a.outpoint.txid.0, b.outpoint.txid.0);
        assert_eq!(a.outpoint.index, b.outpoint.index);
        assert_eq!(a.sig_script.0, b.sig_script.0);
        assert_eq!(a.sequence, b.sequence);
    }
    for (a, b) in t1.outputs.iter().zip(t2.outputs.iter()) {
        assert_eq!(a.satoshis, b.satoshis);
        assert_eq!(a.verify_script.0, b.verify_script.0);
    }
    assert_eq!(src1.remaining_len(), 0);
    assert_eq!(src2.remaining_len(), 0);
}

#[test]
fn transaction_empty_lists_ok() {
    let bytes = vec![
        0x02, 0x00, 0x00, 0x00, // version 2
        0x00, // no inputs
        0x00, // no outputs
        0x2A, 0x00, 0x00, 0x00, // lock time 42
    ];
    let mut src = ByteSource::new(bytes.as_slice());
    let tx = Transaction::deserialize(&mut src).unwrap();
    assert_eq!(tx.version, 2);
    assert!(tx.inputs.is_empty());
    assert!(tx.outputs.is_empty());
    assert_eq!(tx.lock_time, 42);
    assert_eq!(src.remaining_len(), 0);
}

#[test]
fn transaction_input_count_over_bound_rejected() {
    // Count 1_000_001 with nothing after it: the error is the
    // data-validity one, not truncation, so no input was ever read.
    let bytes = vec![
        0x01, 0x00, 0x00, 0x00, // version
        0xFE, 0x41, 0x42, 0x0F, 0x00, // varint 1_000_001
    ];
    let mut src = ByteSource::new(bytes.as_slice());
    assert!(matches!(Transaction::deserialize(&mut src), Err(DecodeError::InvalidData)));
}

#[test]
fn transaction_input_count_at_bound_proceeds() {
    // Count exactly 1_000_000 is structurally accepted: the decoder
    // moves on to read inputs and fails only on the missing bytes.
    let bytes = vec![
        0x01, 0x00, 0x00, 0x00, // version
        0xFE, 0x40, 0x42, 0x0F, 0x00, // varint 1_000_000
    ];
    let mut src = ByteSource::new(bytes.as_slice());
    assert!(matches!(Transaction::deserialize(&mut src), Err(DecodeError::Truncated)));
}

#[test]
fn transaction_output_count_over_bound_rejected() {
    let bytes = vec![
        0x01, 0x00, 0x00, 0x00, // version
        0x00, // no inputs
        0xFE, 0x41, 0x42, 0x0F, 0x00, // varint 1_000_001
    ];
    let mut src = ByteSource::new(bytes.as_slice());
    assert!(matches!(Transaction::deserialize(&mut src), Err(DecodeError::InvalidData)));
}

#[test]
fn transaction_output_count_at_bound_proceeds() {
    let bytes = vec![
        0x01, 0x00, 0x00, 0x00, // version
        0x00, // no inputs
        0xFE, 0x40, 0x42, 0x0F, 0x00, // varint 1_000_000
    ];
    let mut src = ByteSource::new(bytes.as_slice());
    assert!(matches!(Transaction::deserialize(&mut src), Err(DecodeError::Truncated)));
}

#[test]
fn transaction_truncated_at_every_prefix_fails() {
    let bytes = canonical_tx_bytes();
    for cut in 0..bytes.len() {
        let mut src = ByteSource::new(&bytes[..cut]);
        assert!(matches!(Transaction::deserialize(&mut src), Err(DecodeError::Truncated)));
    }
}
