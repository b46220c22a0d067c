use byteorder::{BigEndian, ByteOrder, LittleEndian};
use vstd::prelude::*;

use crate::error::{SerializationError, SerializationResult};

verus! {

/// Byte order of every fixed-width field written in one call.
#[derive(Clone, Copy, Debug)]
pub enum Endianness {
    Little,
    Big,
}

/// The `n` least significant base-256 digits of `v`, least significant first.
pub open spec fn le_bytes(v: nat, n: nat) -> Seq<u8>
    decreases n,
{
    if n == 0 {
        Seq::empty()
    } else {
        seq![(v % 256) as u8] + le_bytes(v / 256, (n - 1) as nat)
    }
}

/// The number whose base-256 digits, least significant first, are `s`.
pub open spec fn le_value(s: Seq<u8>) -> nat
    decreases s.len(),
{
    if s.len() == 0 {
        0
    } else {
        s[0] as nat + 256 * le_value(s.drop_first())
    }
}

/// `v` written on `n` bytes in byte order `e`.
pub open spec fn fixed_bytes(v: nat, n: nat, e: Endianness) -> Seq<u8> {
    match e {
        Endianness::Little => le_bytes(v, n),
        Endianness::Big => le_bytes(v, n).reverse(),
    }
}

/// The number that the bytes `s` hold in byte order `e`.
pub open spec fn fixed_value(s: Seq<u8>, e: Endianness) -> nat {
    match e {
        Endianness::Little => le_value(s),
        Endianness::Big => le_value(s.reverse()),
    }
}

/// `s` with the bytes from `at` on replaced by `w`.
pub open spec fn overwrite(s: Seq<u8>, at: int, w: Seq<u8>) -> Seq<u8> {
    s.subrange(0, at) + w + s.subrange(at + w.len(), s.len() as int)
}

pub proof fn lemma_le_bytes_len(v: nat, n: nat)
    ensures
        le_bytes(v, n).len() == n,
    decreases n,
{
    if n > 0 {
        lemma_le_bytes_len(v / 256, (n - 1) as nat);
    }
}

pub proof fn lemma_le_round_trip(v: nat, n: nat)
    requires
        v < pow256(n),
    ensures
        le_value(le_bytes(v, n)) == v,
    decreases n,
{
    if n > 0 {
        let p = pow256((n - 1) as nat);
        assert(v / 256 < p) by (nonlinear_arith)
            requires
                v < 256 * p,
        ;
        lemma_le_round_trip(v / 256, (n - 1) as nat);
        let s = le_bytes(v, n);
        assert(s.drop_first() =~= le_bytes(v / 256, (n - 1) as nat));
        assert(v == v % 256 + 256 * (v / 256)) by (nonlinear_arith);
    }
}

pub open spec fn pow256(n: nat) -> nat
    decreases n,
{
    if n == 0 {
        1
    } else {
        256 * pow256((n - 1) as nat)
    }
}

/// Reading back what was written on `n` bytes in either order gives the value.
pub proof fn lemma_fixed_round_trip(v: nat, n: nat, e: Endianness)
    requires
        v < pow256(n),
    ensures
        fixed_value(fixed_bytes(v, n, e), e) == v,
        fixed_bytes(v, n, e).len() == n,
{
    lemma_le_round_trip(v, n);
    lemma_le_bytes_len(v, n);
    let s = le_bytes(v, n);
    assert(s.reverse().reverse() =~= s);
}

pub proof fn lemma_pow256_facts()
    ensures
        pow256(4) == 0x1_0000_0000,
        pow256(8) == 0x1_0000_0000_0000_0000,
{
    reveal_with_fuel(pow256, 9);
}

/// Relies on byteorder's `LittleEndian::write_u64`: writes the eight bytes of
/// `v`, least significant first, at `at`, and leaves the rest alone.
#[verifier::external_body]
fn le_write_u64(buf: &mut [u8], at: usize, v: u64)
    requires
        at + 8 <= old(buf)@.len(),
    ensures
        final(buf)@ == overwrite(old(buf)@, at as int, le_bytes(v as nat, 8)),
{
    LittleEndian::write_u64(&mut buf[at..at + 8], v)
}

/// Relies on byteorder's `BigEndian::write_u64`: writes the eight bytes of
/// `v`, most significant first, at `at`, and leaves the rest alone.
#[verifier::external_body]
fn be_write_u64(buf: &mut [u8], at: usize, v: u64)
    requires
        at + 8 <= old(buf)@.len(),
    ensures
        final(buf)@ == overwrite(old(buf)@, at as int, le_bytes(v as nat, 8).reverse()),
{
    BigEndian::write_u64(&mut buf[at..at + 8], v)
}

/// Relies on byteorder's `LittleEndian::write_u32`: writes the four bytes of
/// `v`, least significant first, at `at`, and leaves the rest alone.
#[verifier::external_body]
fn le_write_u32(buf: &mut [u8], at: usize, v: u32)
    requires
        at + 4 <= old(buf)@.len(),
    ensures
        final(buf)@ == overwrite(old(buf)@, at as int, le_bytes(v as nat, 4)),
{
    LittleEndian::write_u32(&mut buf[at..at + 4], v)
}

/// Relies on byteorder's `BigEndian::write_u32`: writes the four bytes of
/// `v`, most significant first, at `at`, and leaves the rest alone.
#[verifier::external_body]
fn be_write_u32(buf: &mut [u8], at: usize, v: u32)
    requires
        at + 4 <= old(buf)@.len(),
    ensures
        final(buf)@ == overwrite(old(buf)@, at as int, le_bytes(v as nat, 4).reverse()),
{
    BigEndian::write_u32(&mut buf[at..at + 4], v)
}

/// Relies on byteorder's `LittleEndian::read_u64`: the value of the eight
/// bytes at `at`, least significant first.
#[verifier::external_body]
fn le_read_u64(buf: &[u8], at: usize) -> (r: u64)
    requires
        at + 8 <= buf@.len(),
    ensures
        r as nat == le_value(buf@.subrange(at as int, at + 8)),
{
    LittleEndian::read_u64(&buf[at..at + 8])
}

/// Relies on byteorder's `BigEndian::read_u64`: the value of the eight bytes
/// at `at`, most significant first.
#[verifier::external_body]
fn be_read_u64(buf: &[u8], at: usize) -> (r: u64)
    requires
        at + 8 <= buf@.len(),
    ensures
        r as nat == le_value(buf@.subrange(at as int, at + 8).reverse()),
{
    BigEndian::read_u64(&buf[at..at + 8])
}

/// Relies on byteorder's `LittleEndian::read_u32`: the value of the four
/// bytes at `at`, least significant first.
#[verifier::external_body]
fn le_read_u32(buf: &[u8], at: usize) -> (r: u32)
    requires
        at + 4 <= buf@.len(),
    ensures
        r as nat == le_value(buf@.subrange(at as int, at + 4)),
{
    LittleEndian::read_u32(&buf[at..at + 4])
}

/// Relies on byteorder's `BigEndian::read_u32`: the value of the four bytes
/// at `at`, most significant first.
#[verifier::external_body]
fn be_read_u32(buf: &[u8], at: usize) -> (r: u32)
    requires
        at + 4 <= buf@.len(),
    ensures
        r as nat == le_value(buf@.subrange(at as int, at + 4).reverse()),
{
    BigEndian::read_u32(&buf[at..at + 4])
}

/// Writes `v` on eight bytes at `at` in byte order `e`.
pub fn put_u64(buf: &mut [u8], at: usize, v: u64, e: Endianness)
    requires
        at + 8 <= old(buf)@.len(),
    ensures
        final(buf)@ == overwrite(old(buf)@, at as int, fixed_bytes(v as nat, 8, e)),
{
    match e {
        Endianness::Little => le_write_u64(buf, at, v),
        Endianness::Big => be_write_u64(buf, at, v),
    }
}

/// Writes `v` on four bytes at `at` in byte order `e`.
pub fn put_u32(buf: &mut [u8], at: usize, v: u32, e: Endianness)
    requires
        at + 4 <= old(buf)@.len(),
    ensures
        final(buf)@ == overwrite(old(buf)@, at as int, fixed_bytes(v as nat, 4, e)),
{
    match e {
        Endianness::Little => le_write_u32(buf, at, v),
        Endianness::Big => be_write_u32(buf, at, v),
    }
}

/// Reads the eight bytes at `at` in byte order `e`.
pub fn get_u64(buf: &[u8], at: usize, e: Endianness) -> (r: u64)
    requires
        at + 8 <= buf@.len(),
    ensures
        r as nat == fixed_value(buf@.subrange(at as int, at + 8), e),
{
    match e {
        Endianness::Little => le_read_u64(buf, at),
        Endianness::Big => be_read_u64(buf, at),
    }
}

/// Reads the four bytes at `at` in byte order `e`.
pub fn get_u32(buf: &[u8], at: usize, e: Endianness) -> (r: u32)
    requires
        at + 4 <= buf@.len(),
    ensures
        r as nat == fixed_value(buf@.subrange(at as int, at + 4), e),
{
    match e {
        Endianness::Little => le_read_u32(buf, at),
        Endianness::Big => be_read_u32(buf, at),
    }
}

impl Endianness {
    /// Writes `value` on the first four bytes of `buf` in this byte order.
    pub fn write_u32(&self, value: u32, buf: &mut [u8]) -> (r: SerializationResult<usize>)
        ensures
            old(buf)@.len() >= 4 ==> r == Ok::<usize, SerializationError>(4) && final(buf)@
                == overwrite(old(buf)@, 0, fixed_bytes(value as nat, 4, *self)),
            old(buf)@.len() < 4 ==> (r matches Err(SerializationError::BufferTooSmall))
                && final(buf)@ == old(buf)@,
    {
        if buf.len() < 4 {
            return Err(SerializationError::BufferTooSmall);
        }
        put_u32(buf, 0, value, *self);
        Ok(4)
    }

    /// Writes `value` on the first eight bytes of `buf` in this byte order.
    pub fn write_u64(&self, value: u64, buf: &mut [u8]) -> (r: SerializationResult<usize>)
        ensures
            old(buf)@.len() >= 8 ==> r == Ok::<usize, SerializationError>(8) && final(buf)@
                == overwrite(old(buf)@, 0, fixed_bytes(value as nat, 8, *self)),
            old(buf)@.len() < 8 ==> (r matches Err(SerializationError::BufferTooSmall))
                && final(buf)@ == old(buf)@,
    {
        if buf.len() < 8 {
            return Err(SerializationError::BufferTooSmall);
        }
        put_u64(buf, 0, value, *self);
        Ok(8)
    }
}

} // verus!

verus! {

/// Writing `w1` then `w2` right after it is writing `w1 + w2`.
pub proof fn lemma_overwrite_concat(s: Seq<u8>, at: int, w1: Seq<u8>, w2: Seq<u8>)
    requires
        0 <= at,
        at + w1.len() + w2.len() <= s.len(),
    ensures
        overwrite(s, at, w1).len() == s.len(),
        overwrite(overwrite(s, at, w1), at + w1.len(), w2) == overwrite(s, at, w1 + w2),
{
    assert(overwrite(overwrite(s, at, w1), at + w1.len(), w2) =~= overwrite(s, at, w1 + w2));
}

/// The skip of a skip.
pub proof fn lemma_skip_skip(s: Seq<u8>, a: int, b: int)
    requires
        0 <= a,
        0 <= b,
        a + b <= s.len(),
    ensures
        s.skip(a).skip(b) == s.skip(a + b),
{
    assert(s.skip(a).skip(b) =~= s.skip(a + b));
}

/// Copies `src` into `buffer` at `at`.
pub fn put_bytes(buffer: &mut [u8], at: usize, src: &[u8])
    requires
        at + src@.len() <= old(buffer)@.len(),
    ensures
        final(buffer)@ == overwrite(old(buffer)@, at as int, src@),
{
    let n = src.len();
    let total = buffer.len();
    let mut i: usize = 0;
    while i < n
        invariant
            n == src@.len(),
            total == buffer@.len(),
            at + n <= buffer@.len(),
            buffer@.len() == old(buffer)@.len(),
            i <= n,
            forall|j: int| 0 <= j < at ==> buffer@[j] == old(buffer)@[j],
            forall|j: int| at + n <= j < buffer@.len() ==> buffer@[j] == old(buffer)@[j],
            forall|j: int| 0 <= j < i ==> buffer@[at + j] == src@[j],
        decreases n - i,
    {
        buffer[at + i] = src[i];
        i = i + 1;
    }
    assert(buffer@ =~= overwrite(old(buffer)@, at as int, src@));
}

} // verus!
