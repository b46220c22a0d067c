use reina::block::Block;
use reina::codec::{Decode, Encode};
use reina::endian::Endianness;
use reina::error::SerializationError;
use reina::fixed_encoding::{decode_fixed_u32, decode_fixed_u64, encode_fixed_u32, encode_fixed_u64};
use reina::frame::Serializer;
use reina::transaction::Transaction;
use reina::varint::{
    decode_varint_u32, decode_varint_u64, decode_zigzag_i32, decode_zigzag_i64,
    encode_varint_u32, encode_varint_u64, encode_zigzag_i32, encode_zigzag_i64,
};

fn tx(id: u64, amount: u64, fee: f64, sender: &str, recipient: &str, signature: Vec<u8>) -> Transaction {
    Transaction {
        id,
        amount,
        fee: fee.to_bits(),
        version: 1,
        sender: sender.into(),
        recipient: recipient.into(),
        signature,
    }
}

#[test]
fn test_varint_u64() {
    let mut buf = [0u8; 10];
    let value: u64 = 300;
    let size = encode_varint_u64(value, &mut buf).unwrap();
    let (decoded, consumed) = decode_varint_u64(&buf).unwrap();
    assert_eq!(value, decoded);
    assert_eq!(size, consumed);
}

#[test]
fn test_primitive_encoding() {
    let mut buf = [0u8; 16];
    let val_u32: u32 = 150;
    let written = val_u32.encode_to(&mut buf, Endianness::Little).unwrap();
    let (decoded, consumed) = u32::decode_from(&buf, Endianness::Little).unwrap();
    assert_eq!(val_u32, decoded);
    assert_eq!(written, consumed);
}

#[test]
fn test_string_encoding() {
    let s = String::from("Hello, Blockchain!");
    let size = s.encoded_size();
    let mut buf = vec![0u8; size];
    let written = s.encode_to(&mut buf, Endianness::Little).unwrap();
    let (decoded, consumed) = String::decode_from(&buf, Endianness::Little).unwrap();
    assert_eq!(s, decoded);
    assert_eq!(written, consumed);
}

#[test]
fn test_transaction_serialization() {
    let t = tx(42, 1000, 0.01, "Alice", "Bob", vec![1, 2, 3, 4]);
    let ser = Serializer::serialize(&t, Endianness::Little).unwrap();
    let de: Transaction = Serializer::deserialize(&ser, Endianness::Little).unwrap();
    assert_eq!(t, de);
}

#[test]
fn test_block_serialization() {
    let tx1 = tx(1, 500, 0.02, "Alice", "Bob", vec![1, 2, 3]);
    let tx2 = tx(2, 750, 0.03, "Charlie", "Dave", vec![4, 5, 6]);
    let block = Block {
        version: 1,
        block_number: 10,
        previous_hash: vec![0xde, 0xad, 0xbe, 0xef],
        transactions: vec![tx1, tx2],
    };
    let ser = Serializer::serialize(&block, Endianness::Little).unwrap();
    let de: Block = Serializer::deserialize(&ser, Endianness::Little).unwrap();
    assert_eq!(block, de);
}

#[test]
fn test_ultra_fixed_serialization() {
    let t = tx(123456789, 5000, 0.05, "Alice", "Bob", vec![1, 2, 3, 4]);
    let ultra = Serializer::serialize_ultra_fixed(&t, Endianness::Little).unwrap();
    let tx_decoded = Serializer::deserialize_ultra_fixed(&ultra, Endianness::Little).unwrap();
    assert_eq!(t.id, tx_decoded.id);
    assert_eq!(t.amount, tx_decoded.amount);
    assert_eq!(t.fee, tx_decoded.fee);
    assert_eq!(t.version, tx_decoded.version);
    assert_eq!(t.sender, tx_decoded.sender);
    assert_eq!(t.recipient, tx_decoded.recipient);
    assert_eq!(&t.signature[..], &tx_decoded.signature[..t.signature.len()]);
}

#[test]
fn varint_wire_bytes_are_exact() {
    let mut buf = [0u8; 4];
    assert_eq!(encode_varint_u64(300, &mut buf).unwrap(), 2);
    assert_eq!(&buf[..2], &[0xac, 0x02]);
    assert_eq!(encode_varint_u64(0, &mut buf).unwrap(), 1);
    assert_eq!(buf[0], 0);
}

#[test]
fn varint_boundary_sizes() {
    let cases: [(u64, usize); 6] = [
        (0, 1),
        (127, 1),
        (128, 2),
        ((1 << 21) - 1, 3),
        (1 << 21, 4),
        (u64::MAX, 10),
    ];
    for (value, size) in cases {
        assert_eq!(value.encoded_size(), size);
        let mut buf = [0u8; 10];
        assert_eq!(encode_varint_u64(value, &mut buf).unwrap(), size);
        let (decoded, consumed) = decode_varint_u64(&buf).unwrap();
        assert_eq!(decoded, value);
        assert_eq!(consumed, size);
    }
}

#[test]
fn varint_too_small_buffer() {
    let mut buf = [0u8; 1];
    assert!(matches!(encode_varint_u64(128, &mut buf), Err(SerializationError::BufferTooSmall)));
}

#[test]
fn varint_unterminated_and_overlong() {
    assert!(matches!(decode_varint_u64(&[0x80, 0x80]), Err(SerializationError::InvalidData(_))));
    assert!(matches!(decode_varint_u64(&[]), Err(SerializationError::InvalidData(_))));
    assert!(matches!(decode_varint_u64(&[0xff; 11]), Err(SerializationError::InvalidData(_))));
    let mut long = [0xffu8; 11];
    long[10] = 0x01;
    assert!(matches!(decode_varint_u64(&long), Err(SerializationError::InvalidData(_))));
}

#[test]
fn varint_u32_range() {
    let mut buf = [0u8; 10];
    encode_varint_u32(u32::MAX, &mut buf).unwrap();
    assert_eq!(decode_varint_u32(&buf).unwrap().0, u32::MAX);
    encode_varint_u64(u32::MAX as u64 + 1, &mut buf).unwrap();
    assert!(matches!(decode_varint_u32(&buf), Err(SerializationError::InvalidData(_))));
}

#[test]
fn zigzag_boundaries() {
    assert_eq!(encode_zigzag_i64(0), 0);
    assert_eq!(encode_zigzag_i64(-1), 1);
    assert_eq!(encode_zigzag_i64(1), 2);
    assert_eq!(encode_zigzag_i64(i64::MIN), u64::MAX);
    assert_eq!(encode_zigzag_i64(i64::MAX), u64::MAX - 1);
    for v in [i64::MIN, -1, 0, 1, i64::MAX] {
        assert_eq!(decode_zigzag_i64(encode_zigzag_i64(v)), v);
        let mut buf = [0u8; 10];
        let n = v.encode_to(&mut buf, Endianness::Big).unwrap();
        assert_eq!(i64::decode_from(&buf, Endianness::Big).unwrap(), (v, n));
    }
    for v in [i32::MIN, -1, 0, 1, i32::MAX] {
        assert_eq!(decode_zigzag_i32(encode_zigzag_i32(v)), v);
        let mut buf = [0u8; 5];
        let n = v.encode_to(&mut buf, Endianness::Little).unwrap();
        assert_eq!(i32::decode_from(&buf, Endianness::Little).unwrap(), (v, n));
    }
}

#[test]
fn bool_codec() {
    let mut buf = [7u8; 1];
    assert_eq!(true.encode_to(&mut buf, Endianness::Little).unwrap(), 1);
    assert_eq!(buf[0], 1);
    assert_eq!(bool::decode_from(&[0], Endianness::Little).unwrap(), (false, 1));
    assert!(matches!(bool::decode_from(&[2], Endianness::Little), Err(SerializationError::InvalidData(_))));
    assert!(matches!(bool::decode_from(&[], Endianness::Little), Err(SerializationError::InvalidData(_))));
    let mut empty: [u8; 0] = [];
    assert!(matches!(false.encode_to(&mut empty, Endianness::Little), Err(SerializationError::BufferTooSmall)));
}

#[test]
fn text_invalid_utf8_rejected() {
    let buf = [2u8, 0xc3, 0x28];
    assert!(matches!(String::decode_from(&buf, Endianness::Little), Err(SerializationError::InvalidData(_))));
    let ok = [2u8, 0xc3, 0xa9];
    assert_eq!(String::decode_from(&ok, Endianness::Little).unwrap(), ("é".to_string(), 3));
}

#[test]
fn bytes_length_beyond_buffer() {
    let buf = [5u8, 1, 2];
    assert!(matches!(Vec::<u8>::decode_from(&buf, Endianness::Little), Err(SerializationError::InvalidData(_))));
    let huge = [0xff, 0xff, 0xff, 0xff, 0xff, 0xff, 0xff, 0xff, 0xff, 0x01, 0];
    assert!(matches!(Vec::<u8>::decode_from(&huge, Endianness::Little), Err(SerializationError::Overflow)));
    assert!(matches!(String::decode_from(&huge, Endianness::Little), Err(SerializationError::Overflow)));
    let mut tx_bytes = vec![1u8, 1];
    tx_bytes.extend_from_slice(&[0; 9]);
    tx_bytes.extend_from_slice(&huge);
    assert!(matches!(Transaction::decode_from(&tx_bytes, Endianness::Little), Err(SerializationError::Overflow)));
}

#[test]
fn transaction_wire_layout() {
    let t = tx(42, 1000, 0.01, "Alice", "Bob", vec![1, 2, 3, 4]);
    let mut buf = vec![0u8; t.encoded_size()];
    assert_eq!(t.encoded_size(), 1 + 2 + 8 + 1 + 6 + 4 + 5);
    t.encode_to(&mut buf, Endianness::Big).unwrap();
    assert_eq!(&buf[..3], &[42, 0xe8, 0x07]);
    assert_eq!(&buf[3..11], &0.01f64.to_bits().to_be_bytes());
    assert_eq!(buf[11], 1);
    assert_eq!(&buf[12..18], b"\x05Alice");
    assert_eq!(&buf[18..22], b"\x03Bob");
    assert_eq!(&buf[22..], &[4, 1, 2, 3, 4]);
    let mut short = vec![0u8; buf.len() - 1];
    assert!(matches!(t.encode_to(&mut short, Endianness::Big), Err(SerializationError::BufferTooSmall)));
}

#[test]
fn round_trip_both_byte_orders() {
    let t = tx(7, u64::MAX, -3.5, "ünïcødé", "", vec![]);
    let block = Block {
        version: 9,
        block_number: 1 << 40,
        previous_hash: vec![0; 32],
        transactions: vec![t.clone(), tx(8, 0, 1.0, "a", "b", vec![9; 70])],
    };
    for e in [Endianness::Little, Endianness::Big] {
        let mut buf = vec![0u8; t.encoded_size() + 3];
        let n = t.encode_to(&mut buf, e).unwrap();
        assert_eq!(n, t.encoded_size());
        assert_eq!(Transaction::decode_from(&buf, e).unwrap(), (t.clone(), n));
        let mut bbuf = vec![0u8; block.encoded_size()];
        let n = block.encode_to(&mut bbuf, e).unwrap();
        let (b2, m) = Block::decode_from(&bbuf, e).unwrap();
        assert_eq!(b2, block);
        assert_eq!(m, n);
    }
}

#[test]
fn fixed_width_helpers() {
    let mut buf = [0u8; 8];
    assert_eq!(encode_fixed_u64(0x0102030405060708, &mut buf, Endianness::Little).unwrap(), 8);
    assert_eq!(buf, [8, 7, 6, 5, 4, 3, 2, 1]);
    assert_eq!(decode_fixed_u64(&buf, Endianness::Little).unwrap(), (0x0102030405060708, 8));
    assert_eq!(decode_fixed_u64(&buf, Endianness::Big).unwrap(), (0x0807060504030201, 8));
    assert_eq!(encode_fixed_u32(0x01020304, &mut buf, Endianness::Big).unwrap(), 4);
    assert_eq!(&buf[..4], &[1, 2, 3, 4]);
    assert_eq!(decode_fixed_u32(&buf, Endianness::Big).unwrap(), (0x01020304, 4));
    let mut small = [0u8; 3];
    assert!(matches!(encode_fixed_u32(1, &mut small, Endianness::Big), Err(SerializationError::BufferTooSmall)));
    assert!(matches!(decode_fixed_u64(&buf[..7], Endianness::Big), Err(SerializationError::InvalidData(_))));
    let mut w = [0u8; 4];
    assert_eq!(Endianness::Little.write_u32(0xaabbccdd, &mut w).unwrap(), 4);
    assert_eq!(w, [0xdd, 0xcc, 0xbb, 0xaa]);
    assert!(matches!(Endianness::Big.write_u64(1, &mut w), Err(SerializationError::BufferTooSmall)));
}

#[test]
fn checked_size_matches_encoded_size() {
    let t = tx(1, 2, 3.0, "s", "r", vec![7; 200]);
    assert_eq!(t.checked_size(), Some(t.encoded_size()));
    assert_eq!(t.encoded_size(), 1 + 1 + 8 + 1 + 2 + 2 + 2 + 200);
    let block = Block { version: 0, block_number: 0, previous_hash: vec![], transactions: vec![t] };
    assert_eq!(block.checked_size(), Some(block.encoded_size()));
    assert_eq!(u64::MAX.checked_size(), Some(10));
    assert_eq!(true.checked_size(), Some(1));
}
