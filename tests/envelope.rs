use reina::block::Block;
use reina::codec::{Decode, Encode};
use reina::endian::Endianness;
use reina::error::SerializationError;
use reina::frame::Serializer;
use reina::transaction::Transaction;
use reina::ultra::ULTRA_TX_SIZE;

fn sample_tx() -> Transaction {
    Transaction {
        id: 42,
        amount: 1000,
        fee: 0.01f64.to_bits(),
        version: 1,
        sender: "Alice".to_string(),
        recipient: "Bob".to_string(),
        signature: vec![1, 2, 3, 4],
    }
}

#[test]
fn frame_layout_of_sample_record() {
    let t = sample_tx();
    let buf = Serializer::serialize(&t, Endianness::Little).unwrap();
    let payload_size = t.encoded_size();
    assert_eq!(buf.len(), 4 + payload_size + 32);
    let len = u32::from_le_bytes([buf[0], buf[1], buf[2], buf[3]]) as usize;
    assert_eq!(len, payload_size + 32);
    let payload = &buf[4..4 + payload_size];
    assert_eq!(&buf[4 + payload_size..], blake3::hash(payload).as_bytes());
}

#[test]
fn big_endian_length_field() {
    let t = sample_tx();
    let buf = Serializer::serialize(&t, Endianness::Big).unwrap();
    let len = u32::from_be_bytes([buf[0], buf[1], buf[2], buf[3]]) as usize;
    assert_eq!(len, t.encoded_size() + 32);
    let back: Transaction = Serializer::deserialize(&buf, Endianness::Big).unwrap();
    assert_eq!(back, t);
}

#[test]
fn ten_zero_bytes_rejected() {
    let buf = [0u8; 10];
    let r: Result<Transaction, SerializationError> = Serializer::deserialize(&buf, Endianness::Little);
    assert!(matches!(r, Err(SerializationError::InvalidData(_))));
}

#[test]
fn short_and_undersized_frames_rejected() {
    let r: Result<Transaction, _> = Serializer::deserialize(&[1, 2, 3], Endianness::Little);
    assert!(matches!(r, Err(SerializationError::InvalidData(_))));
    let mut small = vec![4u8, 0, 0, 0];
    small.extend_from_slice(&[0; 4]);
    let r: Result<Transaction, _> = Serializer::deserialize(&small, Endianness::Little);
    assert!(matches!(r, Err(SerializationError::InvalidData(_))));
    let all_ff = [0xffu8; 64];
    let r: Result<Block, _> = Serializer::deserialize(&all_ff, Endianness::Big);
    assert!(matches!(r, Err(SerializationError::InvalidData(_))));
}

#[test]
fn every_bit_flip_is_a_checksum_mismatch() {
    let t = sample_tx();
    let buf = Serializer::serialize(&t, Endianness::Little).unwrap();
    let payload_size = t.encoded_size();
    for i in 4..4 + payload_size {
        for bit in 0..8 {
            let mut bad = buf.clone();
            bad[i] ^= 1 << bit;
            let r: Result<Transaction, _> = Serializer::deserialize(&bad, Endianness::Little);
            match r {
                Err(SerializationError::ChecksumMismatch { stored, computed }) => {
                    assert_eq!(&stored[..], &buf[4 + payload_size..]);
                    assert_eq!(&computed[..], blake3::hash(&bad[4..4 + payload_size]).as_bytes());
                }
                other => panic!("expected a checksum mismatch, got {:?}", other),
            }
        }
    }
}

#[test]
fn every_strict_prefix_is_rejected() {
    let t = sample_tx();
    let buf = Serializer::serialize(&t, Endianness::Little).unwrap();
    for k in 0..buf.len() {
        let r: Result<Transaction, _> = Serializer::deserialize(&buf[..k], Endianness::Little);
        assert!(matches!(r, Err(SerializationError::InvalidData(_))));
    }
}

#[test]
fn trailing_payload_bytes_rejected() {
    let t = sample_tx();
    let mut payload = vec![0u8; t.encoded_size() + 1];
    t.encode_to(&mut payload, Endianness::Little).unwrap();
    let mut buf = ((payload.len() + 32) as u32).to_le_bytes().to_vec();
    buf.extend_from_slice(&payload);
    buf.extend_from_slice(blake3::hash(&payload).as_bytes());
    let r: Result<Transaction, _> = Serializer::deserialize(&buf, Endianness::Little);
    assert!(matches!(r, Err(SerializationError::InvalidData(_))));
    let mut exact = ((payload.len() - 1 + 32) as u32).to_le_bytes().to_vec();
    exact.extend_from_slice(&payload[..payload.len() - 1]);
    exact.extend_from_slice(blake3::hash(&payload[..payload.len() - 1]).as_bytes());
    let ok: Transaction = Serializer::deserialize_with_pool(&exact, Endianness::Little).unwrap();
    assert_eq!(ok, t);
}

#[test]
fn batch_payload_reslices_into_records() {
    let n = 5;
    let items: Vec<Transaction> = (0..n).map(|_| sample_tx()).collect();
    let buf = Serializer::serialize_batch(&items, Endianness::Big).unwrap();
    let total = u32::from_be_bytes([buf[0], buf[1], buf[2], buf[3]]) as usize;
    assert_eq!(buf.len(), 4 + total);
    let payload = &buf[4..buf.len() - 32];
    assert_eq!(&buf[buf.len() - 32..], blake3::hash(payload).as_bytes());
    let mut offset = 0;
    let mut out = Vec::new();
    for _ in 0..n {
        let (t, used) = Transaction::decode_from(&payload[offset..], Endianness::Big).unwrap();
        offset += used;
        out.push(t);
    }
    assert_eq!(offset, payload.len());
    assert_eq!(out, items);
}

#[test]
fn empty_batch() {
    let items: Vec<Transaction> = Vec::new();
    let buf = Serializer::serialize_batch(&items, Endianness::Little).unwrap();
    assert_eq!(buf.len(), 36);
    assert_eq!(&buf[..4], &[32, 0, 0, 0]);
    assert_eq!(&buf[4..], blake3::hash(&[]).as_bytes());
    let big = Serializer::serialize_batch(&items, Endianness::Big).unwrap();
    assert_eq!(&big[..4], &[0, 0, 0, 32]);
}

#[test]
fn fixed_frame_cuts_long_texts() {
    let mut t = sample_tx();
    t.sender = "abcdefghijklmnopqrstuvwxyz".to_string();
    t.recipient = "0123456789abcdef".to_string();
    t.signature = (0..80).collect();
    let buf = Serializer::serialize_ultra_fixed(&t, Endianness::Big).unwrap();
    assert_eq!(buf.len(), ULTRA_TX_SIZE);
    assert_eq!(&buf[0..8], &42u64.to_be_bytes());
    assert_eq!(&buf[25..41], b"abcdefghijklmnop");
    let back = Serializer::deserialize_ultra_fixed(&buf, Endianness::Big).unwrap();
    assert_eq!(back.sender, "abcdefghijklmnop");
    assert_eq!(back.recipient, "0123456789abcdef");
    assert_eq!(back.signature, (0..64).collect::<Vec<u8>>());
}

#[test]
fn fixed_frame_pads_and_strips() {
    let t = sample_tx();
    let buf = Serializer::serialize_ultra_fixed(&t, Endianness::Little).unwrap();
    assert_eq!(&buf[25..41], b"Alice\0\0\0\0\0\0\0\0\0\0\0");
    let back = Serializer::deserialize_ultra_fixed(&buf, Endianness::Little).unwrap();
    assert_eq!(back.sender, "Alice");
    assert_eq!(back.recipient, "Bob");
    assert_eq!(back.signature.len(), 64);
    assert_eq!(&back.signature[..4], &[1, 2, 3, 4]);
    assert!(back.signature[4..].iter().all(|b| *b == 0));
}

#[test]
fn fixed_frame_split_character_rejected() {
    let mut t = sample_tx();
    t.sender = "aaaaaaaaaaaaaaaé".to_string();
    let buf = Serializer::serialize_ultra_fixed(&t, Endianness::Little).unwrap();
    let r = Serializer::deserialize_ultra_fixed(&buf, Endianness::Little);
    assert!(matches!(r, Err(SerializationError::InvalidData(_))));
}

fn envelope_of(payload: &[u8]) -> Vec<u8> {
    let mut buf = ((payload.len() + 32) as u32).to_le_bytes().to_vec();
    buf.extend_from_slice(payload);
    buf.extend_from_slice(blake3::hash(payload).as_bytes());
    buf
}

#[test]
fn overlong_declared_length_is_an_overflow() {
    let mut payload = vec![1u8, 1];
    payload.extend_from_slice(&[0; 9]);
    payload.extend_from_slice(&[0xff, 0xff, 0xff, 0xff, 0xff, 0xff, 0xff, 0xff, 0xff, 0x01]);
    let r: Result<Transaction, _> = Serializer::deserialize(&envelope_of(&payload), Endianness::Little);
    assert!(matches!(r, Err(SerializationError::Overflow)));
    let short = vec![1u8, 1, 0, 0, 0, 0, 0, 0, 0, 0, 0, 5, 1];
    let r: Result<Transaction, _> = Serializer::deserialize(&envelope_of(&short), Endianness::Little);
    assert!(matches!(r, Err(SerializationError::InvalidData(_))));
}

#[test]
fn deserialize_all_in_order_and_first_error() {
    let mut a = sample_tx();
    a.id = 1;
    let mut b = sample_tx();
    b.id = 2;
    let bufs = vec![
        Serializer::serialize(&a, Endianness::Big).unwrap(),
        Serializer::serialize(&b, Endianness::Big).unwrap(),
    ];
    let all: Vec<Transaction> = Serializer::deserialize_all(&bufs, Endianness::Big).unwrap();
    assert_eq!(all, vec![a, b]);
    let bad = vec![bufs[0].clone(), vec![0u8; 3], vec![0u8; 10]];
    let r: Result<Vec<Transaction>, _> = Serializer::deserialize_all(&bad, Endianness::Big);
    assert!(matches!(r, Err(SerializationError::InvalidData(_))));
    let none: Vec<Vec<u8>> = Vec::new();
    let empty: Vec<Transaction> = Serializer::deserialize_all(&none, Endianness::Big).unwrap();
    assert!(empty.is_empty());
}
