use vstd::prelude::*;
use vstd::utf8::{decode_utf8, encode_utf8, valid_utf8};

use crate::codec::text_from_utf8;
use crate::endian::{
    fixed_bytes, fixed_value, get_u64, lemma_fixed_round_trip, lemma_le_bytes_len,
    lemma_pow256_facts, put_bytes, put_u64, Endianness,
};
use crate::error::SerializationResult;
use crate::frame::Serializer;
use crate::transaction::{Transaction, TransactionView};

verus! {

/// Size of the fixed frame: identifier, amount and fee on eight bytes each,
/// the version byte, sender and recipient on sixteen bytes each, and the
/// signature on sixty-four.
pub const ULTRA_TX_SIZE: usize = 121;

pub open spec fn zeros(n: nat) -> Seq<u8> {
    Seq::new(n, |i: int| 0u8)
}

/// `b` cut to `n` bytes, or padded with zero bytes up to `n`.
pub open spec fn fit(b: Seq<u8>, n: nat) -> Seq<u8> {
    if b.len() >= n {
        b.take(n as int)
    } else {
        b + zeros((n - b.len()) as nat)
    }
}

/// `b` without its trailing zero bytes.
pub open spec fn strip_zeros(b: Seq<u8>) -> Seq<u8>
    decreases b.len(),
{
    if b.len() > 0 && b.last() == 0 {
        strip_zeros(b.drop_last())
    } else {
        b
    }
}

/// The fixed frame of a transfer record.
pub open spec fn ultra_wire(t: TransactionView, e: Endianness) -> Seq<u8> {
    fixed_bytes(t.id as nat, 8, e) + fixed_bytes(t.amount as nat, 8, e) + fixed_bytes(
        t.fee as nat,
        8,
        e,
    ) + seq![t.version] + fit(encode_utf8(t.sender), 16) + fit(encode_utf8(t.recipient), 16)
        + fit(t.signature, 64)
}

/// The text that a fixed text field holds, once its padding is dropped.
pub open spec fn ultra_text(field: Seq<u8>) -> Option<Seq<char>> {
    if valid_utf8(strip_zeros(field)) {
        Some(decode_utf8(strip_zeros(field)))
    } else {
        None
    }
}

/// What decoding the fixed frame `b` gives.
pub open spec fn parse_ultra(b: Seq<u8>, e: Endianness) -> Option<TransactionView> {
    match (ultra_text(b.subrange(25, 41)), ultra_text(b.subrange(41, 57))) {
        (Some(sender), Some(recipient)) => Some(
            TransactionView {
                id: fixed_value(b.subrange(0, 8), e) as u64,
                amount: fixed_value(b.subrange(8, 16), e) as u64,
                fee: fixed_value(b.subrange(16, 24), e) as u64,
                version: b[24],
                sender,
                recipient,
                signature: b.subrange(57, 121),
            },
        ),
        _ => None,
    }
}

/// What a text field of the fixed frame gives back for the text `s`.
pub open spec fn fixed_text(s: Seq<char>) -> Option<Seq<char>> {
    ultra_text(fit(encode_utf8(s), 16))
}

proof fn lemma_strip_padding(x: Seq<u8>, n: nat)
    ensures
        strip_zeros(x + zeros(n)) == strip_zeros(x),
    decreases n,
{
    if n == 0 {
        assert(x + zeros(0) =~= x);
    } else {
        assert((x + zeros(n)).drop_last() =~= x + zeros((n - 1) as nat));
        lemma_strip_padding(x, (n - 1) as nat);
    }
}

/// A text field holds at most the first sixteen bytes of the text, and its
/// zero padding is dropped again on reading.
pub proof fn lemma_fixed_text_cut(s: Seq<char>)
    ensures
        encode_utf8(s).len() >= 16 ==> fixed_text(s) == ultra_text(encode_utf8(s).take(16)),
        encode_utf8(s).len() < 16 ==> fixed_text(s) == ultra_text(encode_utf8(s)),
{
    let x = encode_utf8(s);
    if x.len() < 16 {
        lemma_strip_padding(x, (16 - x.len()) as nat);
    }
}

/// A text of at most sixteen bytes whose last byte is not zero comes back
/// unchanged.
pub proof fn lemma_short_text_kept(s: Seq<char>)
    requires
        encode_utf8(s).len() <= 16,
        encode_utf8(s).len() == 0 || encode_utf8(s).last() != 0,
    ensures
        fixed_text(s) == Some(s),
{
    let x = encode_utf8(s);
    lemma_strip_padding(x, (16 - x.len()) as nat);
    if x.len() == 16 {
        assert(x.take(16) =~= x);
    }
    vstd::utf8::encode_utf8_valid_utf8(s);
    vstd::utf8::encode_utf8_decode_utf8(s);
}

/// Reading back a fixed frame gives the identifier, amount, fee and version
/// exactly, each text as its field holds it, and the signature cut or
/// zero-padded to 64 bytes.
pub proof fn lemma_ultra_round_trip(t: TransactionView, e: Endianness)
    ensures
        parse_ultra(ultra_wire(t, e), e) == match (fixed_text(t.sender), fixed_text(t.recipient)) {
            (Some(sender), Some(recipient)) => Some(
                TransactionView {
                    id: t.id,
                    amount: t.amount,
                    fee: t.fee,
                    version: t.version,
                    sender,
                    recipient,
                    signature: fit(t.signature, 64),
                },
            ),
            _ => None,
        },
{
    let w = ultra_wire(t, e);
    lemma_pow256_facts();
    lemma_fixed_round_trip(t.id as nat, 8, e);
    lemma_fixed_round_trip(t.amount as nat, 8, e);
    lemma_fixed_round_trip(t.fee as nat, 8, e);
    let f1 = fit(encode_utf8(t.sender), 16);
    let f2 = fit(encode_utf8(t.recipient), 16);
    let f3 = fit(t.signature, 64);
    assert(f1.len() == 16);
    assert(f2.len() == 16);
    assert(f3.len() == 64);
    assert(w.subrange(0, 8) =~= fixed_bytes(t.id as nat, 8, e));
    assert(w.subrange(8, 16) =~= fixed_bytes(t.amount as nat, 8, e));
    assert(w.subrange(16, 24) =~= fixed_bytes(t.fee as nat, 8, e));
    assert(w[24] == t.version);
    assert(w.subrange(25, 41) =~= f1);
    assert(w.subrange(41, 57) =~= f2);
    assert(w.subrange(57, 121) =~= f3);
}

/// Copies the first `n` bytes of `src`, at most, into the zeroed field of
/// `n` bytes at `at`.
fn put_fitted(buf: &mut [u8], at: usize, src: &[u8], n: usize)
    requires
        at + n <= old(buf)@.len(),
        old(buf)@.subrange(at as int, at + n) == zeros(n as nat),
    ensures
        final(buf)@.len() == old(buf)@.len(),
        final(buf)@.subrange(at as int, at + n) == fit(src@, n as nat),
        forall|j: int|
            0 <= j < old(buf)@.len() && !(at <= j < at + n) ==> final(buf)@[j] == old(buf)@[j],
{
    let len = if src.len() > n {
        n
    } else {
        src.len()
    };
    let part = &src[0..len];
    let ghost before = buf@;
    put_bytes(buf, at, part);
    proof {
        assert forall|j: int| at + len <= j < at + n implies buf@[j] == 0u8 by {
            assert(before.subrange(at as int, at + n)[j - at] == zeros(n as nat)[j - at]);
        }
        assert(buf@.subrange(at as int, at + n) =~= fit(src@, n as nat));
    }
}

/// Length of `field` once its trailing zero bytes are dropped.
fn stripped_len(buf: &[u8], at: usize, n: usize) -> (r: usize)
    requires
        at + n <= buf@.len(),
    ensures
        r <= n,
        strip_zeros(buf@.subrange(at as int, at + n)) == buf@.subrange(at as int, at + r),
{
    let ghost field = buf@.subrange(at as int, at + n);
    let total = buf.len();
    let mut end = n;
    proof {
        assert(field.take(n as int) =~= field);
    }
    while end > 0 && buf[at + end - 1] == 0
        invariant
            end <= n,
            at + n <= buf@.len(),
            total == buf@.len(),
            field == buf@.subrange(at as int, at + n),
            strip_zeros(field) == strip_zeros(field.take(end as int)),
        decreases end,
    {
        proof {
            assert(field.take(end as int).drop_last() =~= field.take(end - 1));
        }
        end = end - 1;
    }
    proof {
        assert(field.take(end as int) =~= buf@.subrange(at as int, at + end));
    }
    end
}

impl Serializer {
    /// Writes a transfer record as a fixed frame of 121 bytes, with no length
    /// field and no digest. Texts longer than their field are cut; shorter
    /// ones are padded with zero bytes, and so is the signature.
    pub fn serialize_ultra_fixed(tx: &Transaction, endianness: Endianness) -> (r:
        SerializationResult<[u8; 121]>)
        ensures
            r matches Ok(buf) && buf@ == ultra_wire(tx@, endianness),
    {
        let mut buf = [0u8; 121];
        let ghost t = tx@;
        let ghost e = endianness;
        let ghost start = buf@;
        assert(start =~= zeros(121));
        put_u64(&mut buf, 0, tx.id, endianness);
        put_u64(&mut buf, 8, tx.amount, endianness);
        put_u64(&mut buf, 16, tx.fee, endianness);
        buf[24] = tx.version;
        let ghost head = buf@;
        proof {
            lemma_le_bytes_len(t.id as nat, 8);
            lemma_le_bytes_len(t.amount as nat, 8);
            lemma_le_bytes_len(t.fee as nat, 8);
            assert(head.subrange(0, 25) =~= fixed_bytes(t.id as nat, 8, e) + fixed_bytes(
                t.amount as nat,
                8,
                e,
            ) + fixed_bytes(t.fee as nat, 8, e) + seq![t.version]);
            assert(head.subrange(25, 41) =~= zeros(16));
            assert(head.subrange(41, 57) =~= zeros(16));
            assert(head.subrange(57, 121) =~= zeros(64));
        }
        put_fitted(&mut buf, 25, tx.sender.as_str().as_bytes(), 16);
        let ghost s1 = buf@;
        proof {
            assert(s1.subrange(41, 57) =~= head.subrange(41, 57));
        }
        put_fitted(&mut buf, 41, tx.recipient.as_str().as_bytes(), 16);
        let ghost s2 = buf@;
        proof {
            assert(s2.subrange(57, 121) =~= head.subrange(57, 121));
        }
        put_fitted(&mut buf, 57, tx.signature.as_slice(), 64);
        proof {
            assert(buf@.subrange(0, 25) =~= head.subrange(0, 25));
            assert(buf@.subrange(25, 41) =~= s1.subrange(25, 41));
            assert(buf@.subrange(41, 57) =~= s2.subrange(41, 57));
            assert(buf@ =~= buf@.subrange(0, 25) + buf@.subrange(25, 41) + buf@.subrange(41, 57)
                + buf@.subrange(57, 121));
        }
        Ok(buf)
    }

    /// Reads a transfer record from a fixed frame. Trailing zero bytes of the
    /// text fields are padding and are dropped; the signature keeps all 64
    /// bytes.
    pub fn deserialize_ultra_fixed(buf: &[u8; 121], endianness: Endianness) -> (r:
        SerializationResult<Transaction>)
        ensures
            r is Ok <==> parse_ultra(buf@, endianness) is Some,
            match r {
                Ok(t) => parse_ultra(buf@, endianness) == Some(t@),
                Err(err) => err is InvalidData,
            },
    {
        let b = buf.as_slice();
        let id = get_u64(b, 0, endianness);
        let amount = get_u64(b, 8, endianness);
        let fee = get_u64(b, 16, endianness);
        let version = b[24];
        let sender_len = stripped_len(b, 25, 16);
        let sender = text_from_utf8(&b[25..25 + sender_len])?;
        let recipient_len = stripped_len(b, 41, 16);
        let recipient = text_from_utf8(&b[41..41 + recipient_len])?;
        let signature = vstd::slice::slice_to_vec(&b[57..121]);
        Ok(Transaction { id, amount, fee, version, sender, recipient, signature })
    }
}

} // verus!
