use vstd::prelude::*;
use vstd::seq_lib::lemma_concat_associative;

use crate::codec::{
    bytes_wire, length_overflows, lemma_bytes_round_trip, parse_bytes, varint_size, Decode, Encode,
};
use crate::endian::{lemma_overwrite_concat, lemma_skip_skip, overwrite, Endianness};
use crate::error::{invalid, SerializationError, SerializationResult};
use crate::transaction::{
    lemma_transaction_len, lemma_transaction_round_trip, parse_transaction, transaction_len,
    transaction_overflows, transaction_wire, Transaction, TransactionView,
};
use crate::varint::{lemma_varint_round_trip, parse_varint, put_varint, take_varint, varint};

verus! {

/// A block record: an ordered sequence of transfer records.
#[derive(Debug, PartialEq)]
pub struct Block {
    pub version: u8,
    pub block_number: u64,
    pub previous_hash: Vec<u8>,
    pub transactions: Vec<Transaction>,
}

/// The mathematical content of a block record.
pub struct BlockView {
    pub version: u8,
    pub block_number: u64,
    pub previous_hash: Seq<u8>,
    pub transactions: Seq<TransactionView>,
}

/// The views of a sequence of transfer records.
pub open spec fn tx_views(txs: Seq<Transaction>) -> Seq<TransactionView> {
    txs.map_values(|t: Transaction| t@)
}

impl View for Block {
    type V = BlockView;

    open spec fn view(&self) -> BlockView {
        BlockView {
            version: self.version,
            block_number: self.block_number,
            previous_hash: self.previous_hash@,
            transactions: tx_views(self.transactions@),
        }
    }
}

/// The encodings of `txs`, one after the other.
pub open spec fn txs_wire(txs: Seq<TransactionView>, e: Endianness) -> Seq<u8>
    decreases txs.len(),
{
    if txs.len() == 0 {
        Seq::empty()
    } else {
        txs_wire(txs.drop_last(), e) + transaction_wire(txs.last(), e)
    }
}

pub open spec fn txs_len(txs: Seq<TransactionView>) -> nat
    decreases txs.len(),
{
    if txs.len() == 0 {
        0
    } else {
        txs_len(txs.drop_last()) + transaction_len(txs.last())
    }
}

/// The encoding of a block record: the version byte, the block number as a
/// varint, the previous digest length-prefixed, the number of transfer
/// records as a varint, then each transfer record.
pub open spec fn block_wire(v: BlockView, e: Endianness) -> Seq<u8> {
    seq![v.version] + varint(v.block_number as nat) + bytes_wire(v.previous_hash) + varint(
        v.transactions.len(),
    ) + txs_wire(v.transactions, e)
}

pub open spec fn block_len(v: BlockView) -> nat {
    1 + varint(v.block_number as nat).len() + bytes_wire(v.previous_hash).len() + varint(
        v.transactions.len(),
    ).len() + txs_len(v.transactions)
}

/// What decoding `count` transfer records one after the other finds at the
/// start of `b`.
#[verifier::opaque]
pub open spec fn parse_txs(b: Seq<u8>, e: Endianness, count: nat) -> Option<
    (Seq<TransactionView>, nat),
>
    decreases count,
{
    if count == 0 {
        Some((Seq::empty(), 0))
    } else {
        match parse_transaction(b, e) {
            None => None,
            Some((t, n)) => match parse_txs(b.skip(n as int), e, (count - 1) as nat) {
                None => None,
                Some((rest, m)) => Some((seq![t] + rest, n + m)),
            },
        }
    }
}

/// Whether decoding `count` transfer records one after the other first fails
/// on a declared length that does not fit in `usize`.
#[verifier::opaque]
pub open spec fn txs_overflow(b: Seq<u8>, e: Endianness, count: nat) -> bool
    decreases count,
{
    count > 0 && (transaction_overflows(b, e) || match parse_transaction(b, e) {
        Some((_, n)) => txs_overflow(b.skip(n as int), e, (count - 1) as nat),
        None => false,
    })
}

/// Whether decoding a block record at the start of `b` first fails on a
/// declared length that does not fit in `usize`.
#[verifier::opaque]
pub open spec fn block_overflows(b: Seq<u8>, e: Endianness) -> bool {
    b.len() > 0 && match parse_varint(b.skip(1)) {
        None => false,
        Some((_, n1)) => length_overflows(b.skip((1 + n1) as int)) || match parse_bytes(
            b.skip((1 + n1) as int),
        ) {
            None => false,
            Some((_, n2)) => match parse_varint(b.skip((1 + n1 + n2) as int)) {
                None => false,
                Some((count, n3)) => txs_overflow(
                    b.skip((1 + n1 + n2 + n3) as int),
                    e,
                    count as nat,
                ),
            },
        },
    }
}

/// What decoding a block record finds at the start of `b`.
pub open spec fn parse_block(b: Seq<u8>, e: Endianness) -> Option<(BlockView, nat)> {
    if b.len() == 0 {
        None
    } else {
        match parse_varint(b.skip(1)) {
            None => None,
            Some((block_number, n1)) => match parse_bytes(b.skip((1 + n1) as int)) {
                None => None,
                Some((previous_hash, n2)) => match parse_varint(b.skip((1 + n1 + n2) as int)) {
                    None => None,
                    Some((count, n3)) => {
                        let o: int = (1 + n1 + n2 + n3) as int;
                        match parse_txs(b.skip(o), e, count as nat) {
                            None => None,
                            Some((transactions, n4)) => Some(
                                (
                                    BlockView {
                                        version: b[0],
                                        block_number,
                                        previous_hash,
                                        transactions,
                                    },
                                    (o + n4) as nat,
                                ),
                            ),
                        }
                    },
                },
            },
        }
    }
}

proof fn lemma_txs_take(txs: Seq<TransactionView>, i: int, e: Endianness)
    requires
        0 <= i < txs.len(),
    ensures
        txs_wire(txs.take(i + 1), e) == txs_wire(txs.take(i), e) + transaction_wire(txs[i], e),
        txs_len(txs.take(i + 1)) == txs_len(txs.take(i)) + transaction_len(txs[i]),
{
    assert(txs.take(i + 1).drop_last() =~= txs.take(i));
}

/// The sizes of the first `i` records never exceed the size of all of them.
proof fn lemma_txs_len_mono(txs: Seq<TransactionView>, i: int)
    requires
        0 <= i <= txs.len(),
    ensures
        txs_len(txs.take(i)) <= txs_len(txs),
    decreases txs.len() - i,
{
    if i < txs.len() {
        lemma_txs_take(txs, i, Endianness::Little);
        lemma_txs_len_mono(txs, i + 1);
    } else {
        assert(txs.take(i) =~= txs);
    }
}

proof fn lemma_txs_wire_len(txs: Seq<TransactionView>, e: Endianness)
    ensures
        txs_wire(txs, e).len() == txs_len(txs),
    decreases txs.len(),
{
    if txs.len() > 0 {
        lemma_txs_wire_len(txs.drop_last(), e);
        lemma_transaction_len(txs.last(), e);
    }
}

/// The encodings of a non-empty sequence of records start with that of the
/// first one.
proof fn lemma_txs_front(txs: Seq<TransactionView>, e: Endianness)
    requires
        txs.len() > 0,
    ensures
        txs_wire(txs, e) == transaction_wire(txs[0], e) + txs_wire(txs.drop_first(), e),
        txs_len(txs) == transaction_len(txs[0]) + txs_len(txs.drop_first()),
    decreases txs.len(),
{
    let tail = txs.drop_first();
    if txs.len() == 1 {
        assert(txs.drop_last() =~= Seq::<TransactionView>::empty());
        assert(tail =~= Seq::<TransactionView>::empty());
        assert(txs_wire(txs, e) =~= transaction_wire(txs[0], e) + txs_wire(tail, e));
    } else {
        let init = txs.drop_last();
        lemma_txs_front(init, e);
        assert(init.drop_first() =~= tail.drop_last());
        assert(tail.last() == txs.last());
        lemma_concat_associative(
            transaction_wire(txs[0], e),
            txs_wire(init.drop_first(), e),
            transaction_wire(txs.last(), e),
        );
    }
}

/// Every record takes at least one byte.
proof fn lemma_txs_len_count(txs: Seq<TransactionView>)
    ensures
        txs_len(txs) >= txs.len(),
    decreases txs.len(),
{
    if txs.len() > 0 {
        lemma_txs_len_count(txs.drop_last());
    }
}

/// Decoding the encodings of `txs`, whatever follows them, gives `txs` back.
pub proof fn lemma_txs_round_trip(txs: Seq<TransactionView>, e: Endianness, rest: Seq<u8>)
    requires
        txs_len(txs) <= u64::MAX,
    ensures
        parse_txs(txs_wire(txs, e) + rest, e, txs.len()) == Some((txs, txs_wire(txs, e).len())),
    decreases txs.len(),
{
    reveal(parse_txs);
    if txs.len() == 0 {
        assert(txs =~= Seq::<TransactionView>::empty());
    } else {
        lemma_txs_front(txs, e);
        let t = txs[0];
        let tail = txs.drop_first();
        let w = transaction_wire(t, e);
        let b = txs_wire(txs, e) + rest;
        lemma_concat_associative(w, txs_wire(tail, e), rest);
        lemma_transaction_round_trip(t, e, txs_wire(tail, e) + rest);
        assert(b.skip(w.len() as int) =~= txs_wire(tail, e) + rest);
        lemma_txs_round_trip(tail, e, rest);
        assert(seq![t] + tail =~= txs);
        lemma_transaction_len(t, e);
        lemma_txs_wire_len(tail, e);
    }
}

/// Decoding the encoding of a block record, whatever follows it, gives the
/// record back and takes exactly the bytes of its encoding.
pub proof fn lemma_block_round_trip(v: BlockView, e: Endianness, rest: Seq<u8>)
    requires
        block_len(v) <= u64::MAX,
    ensures
        parse_block(block_wire(v, e) + rest, e) == Some((v, block_wire(v, e).len())),
{
    lemma_txs_len_count(v.transactions);
    let a = seq![v.version];
    let m = varint(v.block_number as nat);
    let c = bytes_wire(v.previous_hash);
    let d = varint(v.transactions.len());
    let f = txs_wire(v.transactions, e);
    let r4 = f + rest;
    let r3 = d + r4;
    let r2 = c + r3;
    let r1 = m + r2;
    let b = block_wire(v, e) + rest;
    lemma_concat_associative(a + m + c + d, f, rest);
    lemma_concat_associative(a + m + c, d, r4);
    lemma_concat_associative(a + m, c, r3);
    lemma_concat_associative(a, m, r2);
    assert(b == a + r1);
    assert(b.skip(1) =~= r1);
    lemma_varint_round_trip(v.block_number as nat, r2);
    let o1: int = 1 + m.len() as int;
    assert(b.skip(o1) =~= r2);
    lemma_bytes_round_trip(v.previous_hash, r3);
    let o2: int = o1 + c.len();
    assert(b.skip(o2) =~= r3);
    lemma_varint_round_trip(v.transactions.len(), r4);
    let o3: int = o2 + d.len();
    assert(b.skip(o3) =~= r4);
    lemma_txs_round_trip(v.transactions, e, rest);
    lemma_txs_wire_len(v.transactions, e);
}

pub proof fn lemma_block_len(v: BlockView, e: Endianness)
    ensures
        block_wire(v, e).len() == block_len(v),
{
    lemma_txs_wire_len(v.transactions, e);
}

impl Encode for Block {
    open spec fn wire(v: BlockView, e: Endianness) -> Seq<u8> {
        block_wire(v, e)
    }

    open spec fn encoded_len(v: BlockView) -> nat {
        block_len(v)
    }

    proof fn lemma_wire_len(v: BlockView, e: Endianness) {
        lemma_txs_wire_len(v.transactions, e);
    }

    fn checked_size(&self) -> (r: Option<usize>) {
        let ghost txs = self@.transactions;
        let prev = match self.previous_hash.checked_size() {
            Some(n) => n,
            None => {
                return None;
            },
        };
        let mut sum: usize = match prev.checked_add(
            1 + varint_size(self.block_number) + varint_size(self.transactions.len() as u64),
        ) {
            Some(n) => n,
            None => {
                return None;
            },
        };
        let mut i: usize = 0;
        proof {
            assert(txs.take(0) =~= Seq::<TransactionView>::empty());
        }
        while i < self.transactions.len()
            invariant
                txs == self@.transactions,
                txs.len() == self.transactions@.len(),
                i <= txs.len(),
                sum + txs_len(txs) - txs_len(txs.take(i as int)) == block_len(self@),
            decreases txs.len() - i,
        {
            proof {
                lemma_txs_take(txs, i as int, Endianness::Little);
                lemma_txs_len_mono(txs, i + 1);
            }
            let size = match self.transactions[i].checked_size() {
                Some(n) => n,
                None => {
                    return None;
                },
            };
            sum = match sum.checked_add(size) {
                Some(n) => n,
                None => {
                    return None;
                },
            };
            i = i + 1;
        }
        proof {
            assert(txs.take(i as int) =~= txs);
        }
        Some(sum)
    }

    fn encoded_size(&self) -> (r: usize) {
        let ghost txs = self@.transactions;
        let head = 1 + self.block_number.encoded_size() + self.previous_hash.encoded_size()
            + varint_size(self.transactions.len() as u64);
        let mut sum: usize = 0;
        let mut i: usize = 0;
        proof {
            assert(txs.take(0) =~= Seq::<TransactionView>::empty());
        }
        while i < self.transactions.len()
            invariant
                txs == self@.transactions,
                txs.len() == self.transactions@.len(),
                i <= txs.len(),
                sum as nat == txs_len(txs.take(i as int)),
                head + txs_len(txs) == block_len(self@),
                block_len(self@) <= usize::MAX,
            decreases txs.len() - i,
        {
            proof {
                lemma_txs_take(txs, i as int, Endianness::Little);
                lemma_txs_len_mono(txs, i + 1);
            }
            sum = sum + self.transactions[i].encoded_size();
            i = i + 1;
        }
        proof {
            assert(txs.take(i as int) =~= txs);
        }
        head + sum
    }

    #[verifier::rlimit(100)]
    fn encode_at(&self, buffer: &mut [u8], at: usize, endianness: Endianness) -> (r:
        SerializationResult<usize>) {
        let ghost s = old(buffer)@;
        let ghost v = self@;
        let ghost e = endianness;
        let total = buffer.len();
        if at >= total {
            return Err(SerializationError::BufferTooSmall);
        }
        buffer[at] = self.version;
        proof {
            assert(buffer@ =~= overwrite(s, at as int, seq![v.version]));
        }
        let mut off = at + 1;
        let ghost w = seq![v.version];
        let n = self.block_number.encode_at(buffer, off, endianness)?;
        proof {
            lemma_overwrite_concat(s, at as int, w, varint(v.block_number as nat));
        }
        off = off + n;
        let ghost w = w + varint(v.block_number as nat);
        let n = self.previous_hash.encode_at(buffer, off, endianness)?;
        proof {
            lemma_overwrite_concat(s, at as int, w, bytes_wire(v.previous_hash));
        }
        off = off + n;
        let ghost w = w + bytes_wire(v.previous_hash);
        let count = self.transactions.len();
        let n = put_varint(buffer, off, count as u64)?;
        proof {
            lemma_overwrite_concat(s, at as int, w, varint(count as nat));
        }
        off = off + n;
        let ghost head = w + varint(count as nat);
        let n = put_transactions(&self.transactions, buffer, off, endianness);
        proof {
            lemma_txs_wire_len(v.transactions, e);
        }
        match n {
            Ok(n) => {
                proof {
                    lemma_overwrite_concat(s, at as int, head, txs_wire(v.transactions, e));
                }
                Ok(off + n - at)
            },
            Err(err) => Err(err),
        }
    }
}

/// Writes the transfer records one after the other at `at`.
fn put_transactions(txs: &Vec<Transaction>, buffer: &mut [u8], at: usize, endianness: Endianness) -> (r:
    SerializationResult<usize>)
    requires
        at <= old(buffer)@.len(),
    ensures
        final(buffer)@.len() == old(buffer)@.len(),
        r is Ok <==> at + txs_len(tx_views(txs@)) <= old(buffer)@.len(),
        match r {
            Ok(n) => n == txs_len(tx_views(txs@)) && final(buffer)@ == overwrite(
                old(buffer)@,
                at as int,
                txs_wire(tx_views(txs@), endianness),
            ),
            Err(err) => err is BufferTooSmall,
        },
{
    let ghost s = old(buffer)@;
    let ghost e = endianness;
    let ghost all = tx_views(txs@);
    let total = buffer.len();
    let count = txs.len();
    let mut off = at;
    let mut i: usize = 0;
    proof {
        assert(all.take(0) =~= Seq::<TransactionView>::empty());
        assert(s =~= overwrite(s, at as int, Seq::<u8>::empty()));
    }
    while i < count
        invariant
            count == txs@.len(),
            all == tx_views(txs@),
            total == buffer@.len(),
            total == s.len(),
            s == old(buffer)@,
            i <= count,
            at <= off <= total,
            off - at == txs_len(all.take(i as int)),
            buffer@ == overwrite(s, at as int, txs_wire(all.take(i as int), e)),
            e == endianness,
        decreases count - i,
    {
        let ghost prefix = txs_wire(all.take(i as int), e);
        proof {
            lemma_transaction_len(all[i as int], e);
            lemma_txs_wire_len(all.take(i as int), e);
            lemma_txs_take(all, i as int, e);
            lemma_txs_len_mono(all, i + 1);
        }
        let n = txs[i].encode_at(buffer, off, endianness);
        match n {
            Ok(n) => {
                proof {
                    lemma_overwrite_concat(s, at as int, prefix, transaction_wire(all[i as int], e));
                }
                off = off + n;
                i = i + 1;
            },
            Err(err) => {
                return Err(err);
            },
        }
    }
    proof {
        assert(all.take(i as int) =~= all);
        lemma_txs_wire_len(all, e);
    }
    Ok(off - at)
}

/// Reads `count` transfer records one after the other, from `start` on.
fn take_transactions(buffer: &[u8], start: usize, count: u64, endianness: Endianness) -> (r:
    SerializationResult<(Vec<Transaction>, usize)>)
    requires
        start <= buffer@.len(),
    ensures
        match r {
            Ok((txs, n)) => parse_txs(buffer@.skip(start as int), endianness, count as nat) == Some(
                (tx_views(txs@), n as nat),
            ) && start + n <= buffer@.len(),
            Err(err) => parse_txs(buffer@.skip(start as int), endianness, count as nat) is None
                && if txs_overflow(buffer@.skip(start as int), endianness, count as nat) {
                err is Overflow
            } else {
                err is InvalidData
            },
        },
        txs_overflow(buffer@.skip(start as int), endianness, count as nat) ==> r is Err,
{
    let ghost e = endianness;
    reveal(parse_txs);
    reveal(txs_overflow);
    let total = buffer.len();
    let mut transactions: Vec<Transaction> = Vec::new();
    let mut off = start;
    let mut k: u64 = 0;
    proof {
        assert(tx_views(transactions@) =~= Seq::<TransactionView>::empty());
        assert(seq![] + Seq::<TransactionView>::empty() =~= Seq::<TransactionView>::empty());
    }
    while k < count
        invariant
            total == buffer@.len(),
            start <= off <= total,
            k <= count,
            parse_txs(buffer@.skip(start as int), e, count as nat) == match parse_txs(
                buffer@.skip(off as int),
                e,
                (count - k) as nat,
            ) {
                Some((rest, m)) => Some(
                    (tx_views(transactions@) + rest, ((off - start) + m) as nat),
                ),
                None => None,
            },
            txs_overflow(buffer@.skip(start as int), e, count as nat) == txs_overflow(
                buffer@.skip(off as int),
                e,
                (count - k) as nat,
            ),
            e == endianness,
        decreases count - k,
    {
        proof {
            reveal(parse_txs);
            reveal(txs_overflow);
            assert(<Transaction as Decode>::overflows(buffer@.skip(off as int), e)
                == transaction_overflows(buffer@.skip(off as int), e));
            assert(<Transaction as Decode>::parse(buffer@.skip(off as int), e) == parse_transaction(
                buffer@.skip(off as int),
                e,
            ));
        }
        let res = Transaction::decode_at(buffer, off, endianness);
        match res {
            Ok((tx, n)) => {
                proof {
                    lemma_skip_skip(buffer@, off as int, n as int);
                }
                let ghost done = tx_views(transactions@);
                transactions.push(tx);
                proof {
                    assert(tx_views(transactions@) =~= done.push(tx@));
                    match parse_txs(buffer@.skip(off + n), e, (count - k - 1) as nat) {
                        Some((rest, m)) => {
                            assert(done + (seq![tx@] + rest) =~= done.push(tx@) + rest);
                        },
                        None => {},
                    }
                }
                off = off + n;
                k = k + 1;
            },
            Err(err) => {
                return Err(err);
            },
        }
    }
    proof {
        reveal(parse_txs);
        reveal(txs_overflow);
        assert(tx_views(transactions@) + Seq::<TransactionView>::empty() =~= tx_views(
            transactions@,
        ));
    }
    Ok((transactions, off - start))
}

impl Decode for Block {
    open spec fn parse(b: Seq<u8>, e: Endianness) -> Option<(BlockView, nat)> {
        parse_block(b, e)
    }

    open spec fn overflows(b: Seq<u8>, e: Endianness) -> bool {
        block_overflows(b, e)
    }

    #[verifier::rlimit(100)]
    fn decode_at(buffer: &[u8], at: usize, endianness: Endianness) -> (r: SerializationResult<
        (Block, usize),
    >) {
        let total = buffer.len();
        reveal(block_overflows);
        proof {
            let b = buffer@.skip(at as int);
            assert(Self::parse(b, endianness) == parse_block(b, endianness));
            assert(Self::overflows(b, endianness) == block_overflows(b, endianness));
            assert(forall|x: Seq<u8>| #[trigger]
                <Vec<u8> as Decode>::overflows(x, endianness) == length_overflows(x));
            assert(forall|x: Seq<u8>| #[trigger]
                <Vec<u8> as Decode>::parse(x, endianness) == parse_bytes(x));
        }
        if at >= total {
            return Err(invalid("empty buffer for block"));
        }
        let version = buffer[at];
        let mut off = at + 1;
        proof {
            lemma_skip_skip(buffer@, at as int, 1);
        }
        let (block_number, n1) = take_varint(buffer, off)?;
        off = off + n1;
        proof {
            lemma_skip_skip(buffer@, at as int, 1 + n1);
        }
        let (previous_hash, n2) = Vec::<u8>::decode_at(buffer, off, endianness)?;
        off = off + n2;
        proof {
            lemma_skip_skip(buffer@, at as int, 1 + n1 + n2);
        }
        let (count, n3) = take_varint(buffer, off)?;
        off = off + n3;
        proof {
            lemma_skip_skip(buffer@, at as int, 1 + n1 + n2 + n3);
        }
        let (transactions, n4) = take_transactions(buffer, off, count, endianness)?;
        off = off + n4;
        Ok((Block { version, block_number, previous_hash, transactions }, off - at))
    }
}

} // verus!
