use vstd::prelude::*;
use vstd::slice::slice_to_vec;

use crate::codec::{Decode, Encode};
use crate::endian::{
    fixed_bytes, fixed_value, get_u32, lemma_fixed_round_trip, lemma_overwrite_concat,
    lemma_pow256_facts, overwrite, put_bytes, put_u32, Endianness,
};
use crate::block::{
    block_len, block_wire, lemma_block_round_trip, lemma_txs_round_trip, parse_txs, txs_len,
    txs_wire, Block, BlockView,
};
use crate::error::{invalid, SerializationError, SerializationResult};
use crate::transaction::{
    lemma_transaction_round_trip, transaction_len, transaction_wire, Transaction, TransactionView,
};

verus! {

/// The BLAKE3 digest of `data`.
pub uninterp spec fn blake3_of(data: Seq<u8>) -> Seq<u8>;

/// Relies on `blake3::hash`: the 32-byte BLAKE3 digest of `payload`, which
/// depends on those bytes alone.
#[verifier::external_body]
fn content_hash(payload: &[u8]) -> (r: Vec<u8>)
    ensures
        r@ == blake3_of(payload@),
        r@.len() == 32,
{
    blake3::hash(payload).as_bytes().to_vec()
}

/// Whether two byte strings are equal.
pub fn bytes_equal(a: &[u8], b: &[u8]) -> (r: bool)
    ensures
        r == (a@ == b@),
{
    if a.len() != b.len() {
        return false;
    }
    let mut i: usize = 0;
    while i < a.len()
        invariant
            a@.len() == b@.len(),
            i <= a@.len(),
            forall|j: int| 0 <= j < i ==> a@[j] == b@[j],
        decreases a@.len() - i,
    {
        if a[i] != b[i] {
            return false;
        }
        i = i + 1;
    }
    assert(a@ =~= b@);
    true
}

/// The envelope of `payload`: its length plus that of the digest on four
/// bytes in byte order `e`, the payload, then its digest.
pub open spec fn frame(payload: Seq<u8>, e: Endianness) -> Seq<u8> {
    fixed_bytes(payload.len() + 32, 4, e) + payload + blake3_of(payload)
}

/// The number that the length field of `b` holds.
pub open spec fn frame_length(b: Seq<u8>, e: Endianness) -> nat {
    fixed_value(b.subrange(0, 4), e)
}

/// `b` has a length field, the field counts exactly the bytes after it, and
/// those are enough to hold a digest.
pub open spec fn frame_well_sized(b: Seq<u8>, e: Endianness) -> bool {
    b.len() >= 4 && b.len() == 4 + frame_length(b, e) && frame_length(b, e) >= 32
}

/// The bytes between the length field and the digest.
pub open spec fn frame_payload(b: Seq<u8>) -> Seq<u8> {
    b.subrange(4, b.len() - 32)
}

/// The last 32 bytes, where the digest is stored.
pub open spec fn frame_digest(b: Seq<u8>) -> Seq<u8> {
    b.subrange(b.len() - 32, b.len() as int)
}

/// What `serialize` returns for a value with view `v`: its envelope, when the
/// envelope's size fits both in `usize` and in the length field; an overflow
/// otherwise.
pub open spec fn serialize_result<T: Encode>(
    v: T::V,
    e: Endianness,
    r: SerializationResult<Vec<u8>>,
) -> bool {
    &&& r is Ok <==> T::encoded_len(v) + 36 <= usize::MAX && T::encoded_len(v) + 32 <= u32::MAX
    &&& match r {
        Ok(buf) => buf@ == frame(T::wire(v, e), e) && buf@.len() == 4 + T::encoded_len(v) + 32,
        Err(err) => err is Overflow,
    }
}

/// An envelope is exactly four bytes of length field, the encoding, and a
/// 32-byte digest long, whenever its size fits in `usize` and in the length
/// field.
pub proof fn lemma_frame_size<T: Encode>(v: T::V, e: Endianness)
    requires
        T::encoded_len(v) + 36 <= usize::MAX,
        T::encoded_len(v) + 32 <= u32::MAX,
    ensures
        forall|r: SerializationResult<Vec<u8>>| #[trigger]
            serialize_result::<T>(v, e, r) ==> (r matches Ok(buf) && buf@.len() == 4
                + T::encoded_len(v) + 32),
{
}

/// `b` is an envelope whose length field fits its size, whose digest matches
/// its payload, and whose payload is exactly one encoding.
pub open spec fn deserialize_ok<T: Decode>(b: Seq<u8>, e: Endianness) -> bool {
    let payload = frame_payload(b);
    frame_well_sized(b, e) && frame_digest(b) == blake3_of(payload) && (T::parse(payload, e) matches Some(
        (_, n),
    ) && n == payload.len())
}

/// What `deserialize` returns for the bytes `b`: the value, when the envelope
/// is good; a checksum mismatch carrying both digests, when only the digest is
/// wrong; an overflow, when the payload declares a length that does not fit in
/// `usize`; a structural error otherwise.
pub open spec fn deserialize_result<T: Decode>(
    b: Seq<u8>,
    e: Endianness,
    r: SerializationResult<T>,
) -> bool {
    let payload = frame_payload(b);
    &&& r is Ok <==> deserialize_ok::<T>(b, e)
    &&& (r matches Err(SerializationError::ChecksumMismatch { .. })) <==> frame_well_sized(b, e)
        && frame_digest(b) != blake3_of(payload)
    &&& match r {
        Ok(v) => T::parse(payload, e) == Some((v@, payload.len())),
        Err(SerializationError::ChecksumMismatch { stored, computed }) => stored@ == frame_digest(b)
            && computed@ == blake3_of(payload),
        Err(err) => if frame_well_sized(b, e) && frame_digest(b) == blake3_of(payload)
            && T::overflows(payload, e) {
            err is Overflow
        } else {
            err is InvalidData
        },
    }
}

/// The general envelope: `[u32 length][payload][32-byte digest]`.
pub struct Serializer;

/// An envelope as `serialize` makes it splits back into its parts.
pub proof fn lemma_frame_parts(p: Seq<u8>, e: Endianness)
    requires
        frame(p, e).len() == p.len() + 36,
        p.len() + 32 <= u32::MAX,
    ensures
        frame_well_sized(frame(p, e), e),
        frame_length(frame(p, e), e) == p.len() + 32,
        frame_payload(frame(p, e)) == p,
        frame_digest(frame(p, e)) == blake3_of(p),
{
    let b = frame(p, e);
    lemma_pow256_facts();
    lemma_fixed_round_trip(p.len() + 32, 4, e);
    assert(b.subrange(0, 4) =~= fixed_bytes(p.len() + 32, 4, e));
    assert(frame_payload(b) =~= p);
    assert(frame_digest(b) =~= blake3_of(p));
}

/// Deserializing the envelope that `serialize` makes of a transfer record
/// gives the record back.
pub proof fn lemma_transaction_envelope_round_trip(t: TransactionView, e: Endianness, b: Seq<u8>)
    requires
        b == frame(transaction_wire(t, e), e),
        b.len() == transaction_len(t) + 36,
        transaction_len(t) + 32 <= u32::MAX,
    ensures
        forall|r: SerializationResult<Transaction>|
            #[trigger] deserialize_result::<Transaction>(b, e, r) ==> (r matches Ok(x) && x@ == t),
{
    let p = transaction_wire(t, e);
    crate::transaction::lemma_transaction_len(t, e);
    lemma_frame_parts(p, e);
    lemma_transaction_round_trip(t, e, Seq::empty());
    assert(p + Seq::<u8>::empty() =~= p);
    assert(<Transaction as Decode>::parse(p, e) == crate::transaction::parse_transaction(p, e));
}

/// Deserializing the envelope that `serialize` makes of a block record gives
/// the record back.
pub proof fn lemma_block_envelope_round_trip(v: BlockView, e: Endianness, b: Seq<u8>)
    requires
        b == frame(block_wire(v, e), e),
        b.len() == block_len(v) + 36,
        block_len(v) + 32 <= u32::MAX,
    ensures
        forall|r: SerializationResult<Block>|
            #[trigger] deserialize_result::<Block>(b, e, r) ==> (r matches Ok(x) && x@ == v),
{
    let p = block_wire(v, e);
    crate::block::lemma_block_len(v, e);
    lemma_frame_parts(p, e);
    lemma_block_round_trip(v, e, Seq::empty());
    assert(p + Seq::<u8>::empty() =~= p);
    assert(<Block as Decode>::parse(p, e) == crate::block::parse_block(p, e));
}

/// Flipping one bit of the payload of an envelope is reported as a checksum
/// mismatch, and never accepted, whenever the changed payload has another
/// digest than the untouched one.
pub proof fn lemma_bit_flip_detected<T: Decode>(p: Seq<u8>, e: Endianness, i: int, bit: u8)
    requires
        frame(p, e).len() == p.len() + 36,
        p.len() + 32 <= u32::MAX,
        0 <= i < p.len(),
        bit < 8,
        blake3_of(p.update(i, p[i] ^ (1u8 << bit))) != blake3_of(p),
    ensures
        forall|r: SerializationResult<T>|
            #[trigger] deserialize_result::<T>(
                frame(p, e).update(4 + i, frame(p, e)[4 + i] ^ (1u8 << bit)),
                e,
                r,
            ) ==> (r matches Err(SerializationError::ChecksumMismatch { .. })),
{
    let b = frame(p, e);
    let flipped = b.update(4 + i, b[4 + i] ^ (1u8 << bit));
    lemma_frame_parts(p, e);
    assert(flipped.subrange(0, 4) =~= b.subrange(0, 4));
    assert(frame_payload(flipped) =~= p.update(i, p[i] ^ (1u8 << bit)));
    assert(frame_digest(flipped) =~= frame_digest(b));
}

/// Every strict prefix of an envelope is rejected, and not as a checksum
/// mismatch: its length field no longer matches its size.
pub proof fn lemma_truncation_rejected<T: Decode>(p: Seq<u8>, e: Endianness, k: int)
    requires
        frame(p, e).len() == p.len() + 36,
        p.len() + 32 <= u32::MAX,
        0 <= k < frame(p, e).len(),
    ensures
        forall|r: SerializationResult<T>|
            #[trigger] deserialize_result::<T>(frame(p, e).take(k), e, r) ==> (r is Err && !(
            r matches Err(SerializationError::ChecksumMismatch { .. }))),
{
    let b = frame(p, e);
    lemma_frame_parts(p, e);
    if k >= 4 {
        assert(b.take(k).subrange(0, 4) =~= b.subrange(0, 4));
    }
}

proof fn lemma_concat_is_txs_wire(items: Seq<TransactionView>, e: Endianness)
    ensures
        concat_wire::<Transaction>(items, e) == txs_wire(items, e),
    decreases items.len(),
{
    if items.len() > 0 {
        lemma_concat_is_txs_wire(items.drop_last(), e);
        assert(<Transaction as Encode>::wire(items.last(), e) == transaction_wire(items.last(), e));
    }
}

/// The payload of a batch of transfer records, decoded record after record,
/// gives back every record in order and nothing else.
pub proof fn lemma_batch_records_in_order(items: Seq<TransactionView>, e: Endianness)
    requires
        txs_len(items) <= u64::MAX,
    ensures
        parse_txs(concat_wire::<Transaction>(items, e), e, items.len()) == Some(
            (items, concat_wire::<Transaction>(items, e).len()),
        ),
{
    lemma_concat_is_txs_wire(items, e);
    lemma_txs_round_trip(items, e, Seq::empty());
    assert(txs_wire(items, e) + Seq::<u8>::empty() =~= txs_wire(items, e));
}

impl Serializer {
    /// Encodes `data` and wraps it in an envelope.
    pub fn serialize<T: Encode>(data: &T, endianness: Endianness) -> (r: SerializationResult<
        Vec<u8>,
    >)
        ensures
            serialize_result::<T>(data@, endianness, r),
    {
        let payload_size = match data.checked_size() {
            Some(n) => n,
            None => {
                return Err(SerializationError::Overflow);
            },
        };
        if payload_size > usize::MAX - 36 || payload_size as u64 > (u32::MAX - 32) as u64 {
            return Err(SerializationError::Overflow);
        }
        let total = 4 + payload_size + 32;
        let mut buffer = vec![0u8; total];
        proof {
            T::lemma_wire_len(data@, endianness);
        }
        let written = data.encode_at(buffer.as_mut_slice(), 4, endianness);
        assert(written is Ok);
        let ghost p = T::wire(data@, endianness);
        let hash = content_hash(&buffer.as_slice()[4..4 + payload_size]);
        proof {
            assert(buffer@.subrange(4, 4 + payload_size as int) =~= p);
        }
        put_bytes(buffer.as_mut_slice(), 4 + payload_size, hash.as_slice());
        put_u32(buffer.as_mut_slice(), 0, (payload_size + 32) as u32, endianness);
        proof {
            lemma_pow256_facts();
            lemma_fixed_round_trip((payload_size + 32) as nat, 4, endianness);
            assert(buffer@ =~= frame(p, endianness));
        }
        Ok(buffer)
    }

    /// Checks an envelope and decodes its payload, which must be exactly one
    /// encoding.
    pub fn deserialize<T: Decode>(buffer: &[u8], endianness: Endianness) -> (r:
        SerializationResult<T>)
        ensures
            deserialize_result::<T>(buffer@, endianness, r),
    {
        let len = buffer.len();
        if len < 4 {
            return Err(invalid("buffer too small for length prefix"));
        }
        let len_prefix = get_u32(buffer, 0, endianness);
        if (len - 4) as u64 != len_prefix as u64 {
            return Err(invalid("length prefix does not match buffer size"));
        }
        if len_prefix < 32 {
            return Err(invalid("payload length too small to contain checksum"));
        }
        let payload_end = len - 32;
        let payload = &buffer[4..payload_end];
        let stored = &buffer[payload_end..len];
        let computed = content_hash(payload);
        if !bytes_equal(stored, computed.as_slice()) {
            return Err(
                SerializationError::ChecksumMismatch { stored: slice_to_vec(stored), computed },
            );
        }
        let (value, consumed) = T::decode_from(payload, endianness)?;
        if consumed != payload.len() {
            return Err(invalid("extra bytes found in payload after decoding"));
        }
        Ok(value)
    }

    /// Decodes each of `batches` as an envelope, in order, and stops at the
    /// first one that fails, returning its error.
    pub fn deserialize_all<T: Decode>(batches: &[Vec<u8>], endianness: Endianness) -> (r:
        SerializationResult<Vec<T>>)
        ensures
            r is Ok <==> forall|i: int|
                0 <= i < batches@.len() ==> deserialize_ok::<T>(#[trigger] batches@[i]@, endianness),
            match r {
                Ok(vs) => vs@.len() == batches@.len() && forall|i: int|
                    0 <= i < batches@.len() ==> deserialize_result::<T>(
                        batches@[i]@,
                        endianness,
                        Ok(#[trigger] vs@[i]),
                    ),
                Err(err) => exists|i: int|
                    0 <= i < batches@.len() && (forall|j: int|
                        0 <= j < i ==> deserialize_ok::<T>(#[trigger] batches@[j]@, endianness))
                        && deserialize_result::<T>(#[trigger] batches@[i]@, endianness, Err(err)),
            },
    {
        let n = batches.len();
        let mut out: Vec<T> = Vec::new();
        let mut i: usize = 0;
        while i < n
            invariant
                n == batches@.len(),
                i <= n,
                out@.len() == i,
                forall|j: int|
                    0 <= j < i ==> deserialize_ok::<T>(#[trigger] batches@[j]@, endianness),
                forall|j: int|
                    0 <= j < i ==> deserialize_result::<T>(
                        batches@[j]@,
                        endianness,
                        Ok(#[trigger] out@[j]),
                    ),
            decreases n - i,
        {
            match Serializer::deserialize::<T>(batches[i].as_slice(), endianness) {
                Ok(v) => {
                    let ghost before = out@;
                    out.push(v);
                    proof {
                        assert forall|j: int| 0 <= j < i + 1 implies deserialize_result::<T>(
                            batches@[j]@,
                            endianness,
                            Ok(#[trigger] out@[j]),
                        ) by {
                            if j < i {
                                assert(out@[j] == before[j]);
                            }
                        }
                    }
                    i = i + 1;
                },
                Err(err) => {
                    return Err(err);
                },
            }
        }
        Ok(out)
    }

    /// Same as `deserialize`.
    pub fn deserialize_with_pool<T: Decode>(data: &[u8], endianness: Endianness) -> (r:
        SerializationResult<T>)
        ensures
            deserialize_result::<T>(data@, endianness, r),
    {
        Serializer::deserialize(data, endianness)
    }
}

/// The views of a sequence of values.
pub open spec fn views_of<T: View>(items: Seq<T>) -> Seq<T::V> {
    items.map_values(|x: T| x@)
}

/// The encodings of `items`, one after the other.
pub open spec fn concat_wire<T: Encode>(items: Seq<T::V>, e: Endianness) -> Seq<u8>
    decreases items.len(),
{
    if items.len() == 0 {
        Seq::empty()
    } else {
        concat_wire::<T>(items.drop_last(), e) + T::wire(items.last(), e)
    }
}

/// The total size of the encodings of `items`.
pub open spec fn concat_len<T: Encode>(items: Seq<T::V>) -> nat
    decreases items.len(),
{
    if items.len() == 0 {
        0
    } else {
        concat_len::<T>(items.drop_last()) + T::encoded_len(items.last())
    }
}

proof fn lemma_concat_take<T: Encode>(items: Seq<T::V>, i: int, e: Endianness)
    requires
        0 <= i < items.len(),
    ensures
        concat_wire::<T>(items.take(i + 1), e) == concat_wire::<T>(items.take(i), e) + T::wire(
            items[i],
            e,
        ),
        concat_len::<T>(items.take(i + 1)) == concat_len::<T>(items.take(i)) + T::encoded_len(
            items[i],
        ),
{
    assert(items.take(i + 1).drop_last() =~= items.take(i));
}

proof fn lemma_concat_len_mono<T: Encode>(items: Seq<T::V>, i: int)
    requires
        0 <= i <= items.len(),
    ensures
        concat_len::<T>(items.take(i)) <= concat_len::<T>(items),
    decreases items.len() - i,
{
    if i < items.len() {
        lemma_concat_take::<T>(items, i, Endianness::Little);
        lemma_concat_len_mono::<T>(items, i + 1);
    } else {
        assert(items.take(i) =~= items);
    }
}

/// The encodings of all items are as long as their sizes say.
pub proof fn lemma_concat_wire_len<T: Encode>(items: Seq<T::V>, e: Endianness)
    ensures
        concat_wire::<T>(items, e).len() == concat_len::<T>(items),
    decreases items.len(),
{
    if items.len() > 0 {
        lemma_concat_wire_len::<T>(items.drop_last(), e);
        T::lemma_wire_len(items.last(), e);
    }
}

/// The total size of the encodings of `data`, or `None` when it leaves no
/// room for an envelope.
fn batch_size<T: Encode>(data: &[T]) -> (r: Option<usize>)
    ensures
        r is Some <==> concat_len::<T>(views_of(data@)) + 36 <= usize::MAX && concat_len::<T>(
            views_of(data@),
        ) + 32 <= u32::MAX,
        r matches Some(n) ==> n == concat_len::<T>(views_of(data@)),
{
    let ghost items = views_of(data@);
    let n = data.len();
    let mut total: usize = 0;
    let mut i: usize = 0;
    proof {
        assert(items.take(0) =~= Seq::<T::V>::empty());
    }
    while i < n
        invariant
            n == data@.len(),
            items == views_of(data@),
            i <= n,
            total == concat_len::<T>(items.take(i as int)),
            total + 36 <= usize::MAX,
            total + 32 <= u32::MAX,
        decreases n - i,
    {
        proof {
            lemma_concat_take::<T>(items, i as int, Endianness::Little);
            lemma_concat_len_mono::<T>(items, i + 1);
        }
        let size = match data[i].checked_size() {
            Some(n) => n,
            None => {
                return None;
            },
        };
        if size > usize::MAX - 36 - total || (total + size) as u64 > (u32::MAX - 32) as u64 {
            return None;
        }
        total = total + size;
        i = i + 1;
    }
    proof {
        assert(items.take(n as int) =~= items);
    }
    Some(total)
}

impl Serializer {
    /// Encodes all of `data` one after the other and wraps the whole in one
    /// envelope with a single digest over all of them.
    pub fn serialize_batch<T: Encode>(data: &[T], endianness: Endianness) -> (r:
        SerializationResult<Vec<u8>>)
        ensures
            r is Ok <==> concat_len::<T>(views_of(data@)) + 36 <= usize::MAX && concat_len::<T>(
                views_of(data@),
            ) + 32 <= u32::MAX,
            match r {
                Ok(buf) => buf@ == frame(
                    concat_wire::<T>(views_of(data@), endianness),
                    endianness,
                ) && buf@.len() == 4 + concat_len::<T>(views_of(data@)) + 32,
                Err(err) => err is Overflow,
            },
    {
        let ghost items = views_of(data@);
        let ghost e = endianness;
        let total = match batch_size(data) {
            Some(t) => t,
            None => {
                return Err(SerializationError::Overflow);
            },
        };
        let mut buffer = vec![0u8; 4 + total + 32];
        let ghost zero = buffer@;
        let n = data.len();
        let mut off: usize = 4;
        let mut i: usize = 0;
        proof {
            assert(items.take(0) =~= Seq::<T::V>::empty());
            assert(zero =~= overwrite(zero, 4, Seq::<u8>::empty()));
        }
        while i < n
            invariant
                n == data@.len(),
                items == views_of(data@),
                e == endianness,
                i <= n,
                zero.len() == 4 + total + 32,
                buffer@.len() == zero.len(),
                total == concat_len::<T>(items),
                total + 36 <= usize::MAX,
                off == 4 + concat_len::<T>(items.take(i as int)),
                buffer@ == overwrite(zero, 4, concat_wire::<T>(items.take(i as int), e)),
            decreases n - i,
        {
            let ghost prefix = concat_wire::<T>(items.take(i as int), e);
            proof {
                lemma_concat_take::<T>(items, i as int, e);
                lemma_concat_len_mono::<T>(items, i + 1);
                lemma_concat_wire_len::<T>(items.take(i as int), e);
                T::lemma_wire_len(items[i as int], e);
            }
            let written = data[i].encode_at(buffer.as_mut_slice(), off, endianness);
            proof {
                lemma_overwrite_concat(zero, 4, prefix, T::wire(items[i as int], e));
            }
            off = off + written.unwrap();
            i = i + 1;
        }
        let ghost p = concat_wire::<T>(items, e);
        proof {
            assert(items.take(n as int) =~= items);
            lemma_concat_wire_len::<T>(items, e);
            assert(buffer@.subrange(4, 4 + total as int) =~= p);
        }
        let hash = content_hash(&buffer.as_slice()[4..4 + total]);
        put_bytes(buffer.as_mut_slice(), 4 + total, hash.as_slice());
        put_u32(buffer.as_mut_slice(), 0, (total + 32) as u32, endianness);
        proof {
            lemma_pow256_facts();
            lemma_fixed_round_trip((total + 32) as nat, 4, endianness);
            assert(buffer@ =~= frame(p, endianness));
        }
        Ok(buffer)
    }
}

} // verus!
