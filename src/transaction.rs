use vstd::prelude::*;
use vstd::seq_lib::lemma_concat_associative;
use vstd::utf8::encode_utf8;

use crate::codec::{
    bytes_wire, length_overflows, lemma_bytes_round_trip, lemma_text_round_trip, parse_bytes,
    parse_text, varint_size, Decode, Encode,
};
use crate::endian::{
    fixed_bytes, fixed_value, get_u64, lemma_fixed_round_trip, lemma_le_bytes_len,
    lemma_overwrite_concat, lemma_pow256_facts, lemma_skip_skip, overwrite, put_u64, Endianness,
};
use crate::error::{invalid, SerializationError, SerializationResult};
use crate::varint::{lemma_varint_round_trip, parse_varint, varint};

verus! {

/// A transfer record.
#[derive(Debug, PartialEq, Clone)]
pub struct Transaction {
    pub id: u64,
    pub amount: u64,
    /// The fee, as the bit pattern of an IEEE 754 double-precision number.
    pub fee: u64,
    pub version: u8,
    pub sender: String,
    pub recipient: String,
    pub signature: Vec<u8>,
}

/// The mathematical content of a transfer record.
pub struct TransactionView {
    pub id: u64,
    pub amount: u64,
    pub fee: u64,
    pub version: u8,
    pub sender: Seq<char>,
    pub recipient: Seq<char>,
    pub signature: Seq<u8>,
}

impl View for Transaction {
    type V = TransactionView;

    open spec fn view(&self) -> TransactionView {
        TransactionView {
            id: self.id,
            amount: self.amount,
            fee: self.fee,
            version: self.version,
            sender: self.sender@,
            recipient: self.recipient@,
            signature: self.signature@,
        }
    }
}

/// Length-prefixed UTF-8 text.
pub open spec fn text_wire(s: Seq<char>) -> Seq<u8> {
    bytes_wire(encode_utf8(s))
}

/// The encoding of a transfer record: identifier and amount as varints, the
/// fee on eight bytes, the version byte, then sender, recipient and
/// signature, each length-prefixed.
pub open spec fn transaction_wire(t: TransactionView, e: Endianness) -> Seq<u8> {
    varint(t.id as nat) + varint(t.amount as nat) + fixed_bytes(t.fee as nat, 8, e) + seq![
        t.version,
    ] + text_wire(t.sender) + text_wire(t.recipient) + bytes_wire(t.signature)
}

pub open spec fn transaction_len(t: TransactionView) -> nat {
    varint(t.id as nat).len() + varint(t.amount as nat).len() + 9 + text_wire(t.sender).len()
        + text_wire(t.recipient).len() + bytes_wire(t.signature).len()
}

/// What decoding a transfer record finds at the start of `b`.
#[verifier::opaque]
pub open spec fn parse_transaction(b: Seq<u8>, e: Endianness) -> Option<(TransactionView, nat)> {
    match parse_varint(b) {
        None => None,
        Some((id, n1)) => match parse_varint(b.skip(n1 as int)) {
            None => None,
            Some((amount, n2)) => {
                let o: int = (n1 + n2) as int;
                if o + 9 > b.len() {
                    None
                } else {
                    let fee = fixed_value(b.subrange(o, o + 8), e) as u64;
                    let version = b[o + 8];
                    let o4: int = o + 9;
                    match parse_text(b.skip(o4)) {
                        None => None,
                        Some((sender, n4)) => match parse_text(b.skip(o4 + n4)) {
                            None => None,
                            Some((recipient, n5)) => match parse_bytes(b.skip(o4 + n4 + n5)) {
                                None => None,
                                Some((signature, n6)) => Some(
                                    (
                                        TransactionView {
                                            id,
                                            amount,
                                            fee,
                                            version,
                                            sender,
                                            recipient,
                                            signature,
                                        },
                                        (o4 + n4 + n5 + n6) as nat,
                                    ),
                                ),
                            },
                        },
                    }
                }
            },
        },
    }
}

pub proof fn lemma_transaction_len(t: TransactionView, e: Endianness)
    ensures
        transaction_wire(t, e).len() == transaction_len(t),
{
    lemma_le_bytes_len(t.fee as nat, 8);
}

/// Decoding the encoding of a transfer record, whatever follows it, gives the
/// record back and takes exactly the bytes of its encoding.
pub proof fn lemma_transaction_round_trip(t: TransactionView, e: Endianness, rest: Seq<u8>)
    requires
        transaction_len(t) <= u64::MAX,
    ensures
        parse_transaction(transaction_wire(t, e) + rest, e) == Some(
            (t, transaction_wire(t, e).len()),
        ),
{
    reveal(parse_transaction);
    lemma_transaction_len(t, e);
    lemma_le_bytes_len(t.fee as nat, 8);
    let a = varint(t.id as nat);
    let m = varint(t.amount as nat);
    let c = fixed_bytes(t.fee as nat, 8, e);
    let d = seq![t.version];
    let f = text_wire(t.sender);
    let g = text_wire(t.recipient);
    let h = bytes_wire(t.signature);
    let r6 = h + rest;
    let r5 = g + r6;
    let r4 = f + r5;
    let r3 = d + r4;
    let r2 = c + r3;
    let r1 = m + r2;
    let b = transaction_wire(t, e) + rest;
    lemma_concat_associative(a + m + c + d + f + g, h, rest);
    lemma_concat_associative(a + m + c + d + f, g, r6);
    lemma_concat_associative(a + m + c + d, f, r5);
    lemma_concat_associative(a + m + c, d, r4);
    lemma_concat_associative(a + m, c, r3);
    lemma_concat_associative(a, m, r2);
    assert(b == a + r1);
    lemma_varint_round_trip(t.id as nat, r1);
    let n1: int = a.len() as int;
    assert(b.skip(n1) =~= r1);
    lemma_varint_round_trip(t.amount as nat, r2);
    let o: int = n1 + m.len();
    assert(b.skip(o) =~= r2);
    assert(b.subrange(o, o + 8) =~= c);
    lemma_pow256_facts();
    lemma_fixed_round_trip(t.fee as nat, 8, e);
    assert(b[o + 8] == r3[0]);
    let o4: int = o + 9;
    assert(b.skip(o4) =~= r4);
    lemma_text_round_trip(t.sender, r5);
    assert(b.skip(o4 + f.len()) =~= r5);
    lemma_text_round_trip(t.recipient, r6);
    assert(b.skip(o4 + f.len() + g.len()) =~= r6);
    lemma_bytes_round_trip(t.signature, rest);
}

/// Whether decoding a transfer record at the start of `b` first fails on a
/// text or signature whose declared length does not fit in `usize`.
#[verifier::opaque]
pub open spec fn transaction_overflows(b: Seq<u8>, e: Endianness) -> bool {
    match parse_varint(b) {
        None => false,
        Some((_, n1)) => match parse_varint(b.skip(n1 as int)) {
            None => false,
            Some((_, n2)) => {
                let o4: int = (n1 + n2 + 9) as int;
                if o4 > b.len() {
                    false
                } else {
                    length_overflows(b.skip(o4)) || match parse_text(b.skip(o4)) {
                        None => false,
                        Some((_, n4)) => length_overflows(b.skip(o4 + n4)) || match parse_text(
                            b.skip(o4 + n4),
                        ) {
                            None => false,
                            Some((_, n5)) => length_overflows(b.skip(o4 + n4 + n5)),
                        },
                    }
                }
            },
        },
    }
}

impl Encode for Transaction {
    open spec fn wire(v: TransactionView, e: Endianness) -> Seq<u8> {
        transaction_wire(v, e)
    }

    open spec fn encoded_len(v: TransactionView) -> nat {
        transaction_len(v)
    }

    proof fn lemma_wire_len(v: TransactionView, e: Endianness) {
        lemma_transaction_len(v, e);
    }

    fn checked_size(&self) -> (r: Option<usize>) {
        let ghost t = self@;
        proof {
            assert(Self::encoded_len(t) == transaction_len(t));
            assert(<String as Encode>::encoded_len(t.sender) == text_wire(t.sender).len());
            assert(<String as Encode>::encoded_len(t.recipient) == text_wire(t.recipient).len());
            assert(<Vec<u8> as Encode>::encoded_len(t.signature) == bytes_wire(t.signature).len());
        }
        let fixed = varint_size(self.id) + varint_size(self.amount) + 9;
        let sender = match self.sender.checked_size() {
            Some(n) => n,
            None => {
                return None;
            },
        };
        let recipient = match self.recipient.checked_size() {
            Some(n) => n,
            None => {
                return None;
            },
        };
        let signature = match self.signature.checked_size() {
            Some(n) => n,
            None => {
                return None;
            },
        };
        match fixed.checked_add(sender) {
            Some(a) => match a.checked_add(recipient) {
                Some(b) => b.checked_add(signature),
                None => None,
            },
            None => None,
        }
    }

    fn encoded_size(&self) -> (r: usize) {
        self.id.encoded_size() + self.amount.encoded_size() + 8 + 1 + self.sender.encoded_size()
            + self.recipient.encoded_size() + self.signature.encoded_size()
    }

    #[verifier::rlimit(40)]
    fn encode_at(&self, buffer: &mut [u8], at: usize, endianness: Endianness) -> (r:
        SerializationResult<usize>) {
        let ghost s = old(buffer)@;
        let ghost t = self@;
        let ghost e = endianness;
        proof {
            lemma_le_bytes_len(t.fee as nat, 8);
            assert(Self::encoded_len(t) == transaction_len(t));
            assert(Self::wire(t, e) == transaction_wire(t, e));
            assert(<u64 as Encode>::wire(t.id, e) == varint(t.id as nat));
            assert(<u64 as Encode>::wire(t.amount, e) == varint(t.amount as nat));
            assert(<String as Encode>::wire(t.sender, e) == text_wire(t.sender));
            assert(<String as Encode>::wire(t.recipient, e) == text_wire(t.recipient));
            assert(<Vec<u8> as Encode>::wire(t.signature, e) == bytes_wire(t.signature));
            assert(<u64 as Encode>::encoded_len(t.id) == varint(t.id as nat).len());
            assert(<u64 as Encode>::encoded_len(t.amount) == varint(t.amount as nat).len());
            assert(<String as Encode>::encoded_len(t.sender) == text_wire(t.sender).len());
            assert(<String as Encode>::encoded_len(t.recipient) == text_wire(t.recipient).len());
            assert(<Vec<u8> as Encode>::encoded_len(t.signature) == bytes_wire(t.signature).len());
        }
        let total = buffer.len();
        let mut off = at;
        let n = self.id.encode_at(buffer, off, endianness)?;
        off = off + n;
        let ghost w = varint(t.id as nat);
        assert(buffer@ == overwrite(s, at as int, w));
        let n = self.amount.encode_at(buffer, off, endianness)?;
        proof {
            lemma_overwrite_concat(s, at as int, w, varint(t.amount as nat));
        }
        off = off + n;
        let ghost w = w + varint(t.amount as nat);
        if buffer.len() - off < 8 {
            return Err(SerializationError::BufferTooSmall);
        }
        put_u64(buffer, off, self.fee, endianness);
        proof {
            lemma_overwrite_concat(s, at as int, w, fixed_bytes(t.fee as nat, 8, e));
        }
        off = off + 8;
        let ghost w = w + fixed_bytes(t.fee as nat, 8, e);
        if off >= buffer.len() {
            return Err(SerializationError::BufferTooSmall);
        }
        let ghost before = buffer@;
        buffer[off] = self.version;
        proof {
            assert(buffer@ =~= overwrite(before, off as int, seq![t.version]));
            lemma_overwrite_concat(s, at as int, w, seq![t.version]);
        }
        off = off + 1;
        let ghost w = w + seq![t.version];
        let n = self.sender.encode_at(buffer, off, endianness)?;
        proof {
            lemma_overwrite_concat(s, at as int, w, text_wire(t.sender));
        }
        off = off + n;
        let ghost w = w + text_wire(t.sender);
        let n = self.recipient.encode_at(buffer, off, endianness)?;
        proof {
            lemma_overwrite_concat(s, at as int, w, text_wire(t.recipient));
        }
        off = off + n;
        let ghost w = w + text_wire(t.recipient);
        let n = self.signature.encode_at(buffer, off, endianness)?;
        proof {
            lemma_overwrite_concat(s, at as int, w, bytes_wire(t.signature));
        }
        off = off + n;
        Ok(off - at)
    }
}

impl Decode for Transaction {
    open spec fn parse(b: Seq<u8>, e: Endianness) -> Option<(TransactionView, nat)> {
        parse_transaction(b, e)
    }

    open spec fn overflows(b: Seq<u8>, e: Endianness) -> bool {
        transaction_overflows(b, e)
    }

    #[verifier::rlimit(80)]
    fn decode_at(buffer: &[u8], at: usize, endianness: Endianness) -> (r: SerializationResult<
        (Transaction, usize),
    >) {
        let ghost b = buffer@.skip(at as int);
        reveal(parse_transaction);
        reveal(transaction_overflows);
        proof {
            assert(Self::parse(b, endianness) == parse_transaction(b, endianness));
            assert(Self::overflows(b, endianness) == transaction_overflows(b, endianness));
            assert(forall|x: Seq<u8>| #[trigger]
                <u64 as Decode>::overflows(x, endianness) == false);
            assert(forall|x: Seq<u8>| #[trigger]
                <String as Decode>::overflows(x, endianness) == length_overflows(x));
            assert(forall|x: Seq<u8>| #[trigger]
                <Vec<u8> as Decode>::overflows(x, endianness) == length_overflows(x));
            assert(forall|x: Seq<u8>| #[trigger]
                <u64 as Decode>::parse(x, endianness) == parse_varint(x));
            assert(forall|x: Seq<u8>| #[trigger]
                <String as Decode>::parse(x, endianness) == parse_text(x));
            assert(forall|x: Seq<u8>| #[trigger]
                <Vec<u8> as Decode>::parse(x, endianness) == parse_bytes(x));
        }
        let total = buffer.len();
        let (id, n1) = u64::decode_at(buffer, at, endianness)?;
        let mut off = at + n1;
        proof {
            lemma_skip_skip(buffer@, at as int, n1 as int);
        }
        let (amount, n2) = u64::decode_at(buffer, off, endianness)?;
        off = off + n2;
        proof {
            lemma_skip_skip(buffer@, at as int, (n1 + n2) as int);
        }
        if buffer.len() - off < 8 {
            return Err(invalid("buffer too small for the fee"));
        }
        let fee = get_u64(buffer, off, endianness);
        proof {
            assert(b.subrange(n1 + n2, n1 + n2 + 8) =~= buffer@.subrange(off as int, off + 8));
        }
        off = off + 8;
        if off >= buffer.len() {
            return Err(invalid("buffer too small for the version"));
        }
        let version = buffer[off];
        off = off + 1;
        let ghost o4 = off - at;
        proof {
            lemma_skip_skip(buffer@, at as int, o4);
        }
        let (sender, n4) = String::decode_at(buffer, off, endianness)?;
        off = off + n4;
        proof {
            lemma_skip_skip(buffer@, at as int, o4 + n4);
        }
        let (recipient, n5) = String::decode_at(buffer, off, endianness)?;
        off = off + n5;
        proof {
            lemma_skip_skip(buffer@, at as int, o4 + n4 + n5);
        }
        let (signature, n6) = Vec::<u8>::decode_at(buffer, off, endianness)?;
        off = off + n6;
        Ok((Transaction { id, amount, fee, version, sender, recipient, signature }, off - at))
    }
}

} // verus!
