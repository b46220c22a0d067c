use vstd::arithmetic::div_mod::lemma_add_mod_noop;
use vstd::prelude::*;

use crate::endian::overwrite;
use crate::error::{invalid, SerializationError, SerializationResult};

verus! {

pub open spec fn pow128(n: nat) -> nat
    decreases n,
{
    if n == 0 {
        1
    } else {
        128 * pow128((n - 1) as nat)
    }
}

/// Base-128 digits of `v`, least significant first; every byte but the last
/// has its high bit set.
pub open spec fn varint(v: nat) -> Seq<u8>
    decreases v,
{
    if v < 128 {
        seq![v as u8]
    } else {
        seq![(v % 128 + 128) as u8] + varint(v / 128)
    }
}

/// Number of leading bytes of `b` whose high bit is set.
pub open spec fn stop(b: Seq<u8>) -> nat
    decreases b.len(),
{
    if b.len() == 0 || b[0] < 128 {
        0
    } else {
        1 + stop(b.drop_first())
    }
}

/// The base-128 number held by the low seven bits of the first `n` bytes.
pub open spec fn digits(b: Seq<u8>, n: nat) -> nat
    decreases n,
{
    if n == 0 || b.len() == 0 {
        0
    } else {
        (b[0] % 128) as nat + 128 * digits(b.drop_first(), (n - 1) as nat)
    }
}

/// What the varint decoder reads at the start of `b`: the value, taken
/// modulo 2^64, and the number of bytes. A varint ends at the first byte
/// without the high bit, and may span at most ten bytes.
pub open spec fn parse_varint(b: Seq<u8>) -> Option<(u64, nat)> {
    let n = stop(b) + 1;
    if n <= b.len() && n <= 10 {
        Some(((digits(b, n) % 0x1_0000_0000_0000_0000) as u64, n))
    } else {
        None
    }
}

/// Zig-zag mapping: 0, -1, 1, -2, ... to 0, 1, 2, 3, ...
pub open spec fn zigzag(v: int) -> int {
    if v >= 0 {
        2 * v
    } else {
        -2 * v - 1
    }
}

pub open spec fn unzigzag(u: int) -> int {
    if u % 2 == 0 {
        u / 2
    } else {
        -(u / 2) - 1
    }
}

proof fn lemma_digits_step(b: Seq<u8>, i: nat)
    requires
        i < b.len(),
    ensures
        digits(b, i + 1) == digits(b, i) + (b[i as int] % 128) as nat * pow128(i),
    decreases i,
{
    let t = b.drop_first();
    let b0 = (b[0] % 128) as nat;
    assert(digits(b, i + 1) == b0 + 128 * digits(t, i));
    if i == 0 {
        assert(digits(t, 0) == 0);
        assert(digits(b, 0) == 0);
        assert(pow128(0) == 1);
    } else {
        lemma_digits_step(t, (i - 1) as nat);
        assert(digits(b, i) == b0 + 128 * digits(t, (i - 1) as nat));
        assert(pow128(i) == 128 * pow128((i - 1) as nat));
        assert(t[i - 1] == b[i as int]);
        let d = (b[i as int] % 128) as nat;
        let p = pow128((i - 1) as nat);
        let x = digits(t, (i - 1) as nat);
        assert(digits(t, i) == x + d * p);
        assert(128 * (x + d * p) == 128 * x + d * (128 * p)) by (nonlinear_arith);
        assert(digits(b, i + 1) == b0 + 128 * x + d * (128 * p));
    }
}

proof fn lemma_pow128_small(i: nat)
    requires
        i <= 9,
    ensures
        pow128(i) <= 0x8000_0000_0000_0000,
        i <= 8 ==> pow128(i) <= 0x0100_0000_0000_0000,
{
    reveal_with_fuel(pow128, 10);
}

proof fn lemma_skip_next(b: Seq<u8>, i: int)
    requires
        0 <= i < b.len(),
    ensures
        b.skip(i).drop_first() == b.skip(i + 1),
        b.skip(i)[0] == b[i],
{
    assert(b.skip(i).drop_first() =~= b.skip(i + 1));
}

/// Length and range of a varint: it has the fewest bytes `n` with
/// `v < 128^n`, and at least one.
pub proof fn lemma_varint_len(v: nat)
    ensures
        varint(v).len() >= 1,
        v < pow128(varint(v).len()),
        varint(v).len() == 1 || pow128((varint(v).len() - 1) as nat) <= v,
    decreases v,
{
    reveal_with_fuel(pow128, 2);
    if v >= 128 {
        lemma_varint_len(v / 128);
        let m = varint(v / 128).len();
        assert(varint(v).len() == m + 1);
        let p = pow128(m);
        assert(pow128(m + 1) == 128 * p);
        assert(v < 128 * p) by (nonlinear_arith)
            requires
                v / 128 < p,
        ;
        if m > 1 {
            let q = pow128((m - 1) as nat);
            assert(pow128(m) == 128 * q);
            assert(128 * q <= v) by (nonlinear_arith)
                requires
                    q <= v / 128,
            ;
        }
    }
}

proof fn lemma_pow128_mono(a: nat, b: nat)
    requires
        a <= b,
    ensures
        pow128(a) <= pow128(b),
    decreases b,
{
    if a < b {
        lemma_pow128_mono(a, (b - 1) as nat);
    }
}

/// A 64-bit value has a varint of at most ten bytes.
pub proof fn lemma_varint_u64_len(v: nat)
    requires
        v <= u64::MAX,
    ensures
        1 <= varint(v).len() <= 10,
{
    lemma_varint_len(v);
    let n = varint(v).len();
    if n > 10 {
        lemma_pow128_mono(10, (n - 1) as nat);
        reveal_with_fuel(pow128, 11);
    }
}

/// Decoding a varint, with anything after it, gives back its value and length.
pub proof fn lemma_varint_round_trip(v: nat, rest: Seq<u8>)
    requires
        v <= u64::MAX,
    ensures
        parse_varint(varint(v) + rest) == Some((v as u64, varint(v).len())),
{
    lemma_varint_u64_len(v);
    lemma_varint_parts(v, rest);
}

proof fn lemma_varint_parts(v: nat, rest: Seq<u8>)
    ensures
        stop(varint(v) + rest) + 1 == varint(v).len(),
        digits(varint(v) + rest, varint(v).len()) == v,
    decreases v,
{
    let b = varint(v) + rest;
    if v < 128 {
        assert(b[0] == v as u8);
        assert(digits(b.drop_first(), 0) == 0);
    } else {
        lemma_varint_parts(v / 128, rest);
        assert(b.drop_first() =~= varint(v / 128) + rest);
        assert(b[0] == (v % 128 + 128) as u8);
    }
}

/// Writes the varint of `value` at `at`.
pub fn put_varint(buffer: &mut [u8], at: usize, value: u64) -> (r: SerializationResult<usize>)
    requires
        at <= old(buffer)@.len(),
    ensures
        final(buffer)@.len() == old(buffer)@.len(),
        match r {
            Ok(n) => n == varint(value as nat).len() && final(buffer)@ == overwrite(
                old(buffer)@,
                at as int,
                varint(value as nat),
            ),
            Err(e) => e is BufferTooSmall && old(buffer)@.len() - at < varint(value as nat).len(),
        },
{
    let len = buffer.len();
    let avail = len - at;
    let mut v = value;
    let mut i: usize = 0;
    loop
        invariant
            len == buffer@.len(),
            avail == buffer@.len() - at,
            at <= buffer@.len(),
            buffer@.len() == old(buffer)@.len(),
            i <= avail,
            varint(value as nat) == buffer@.subrange(at as int, at + i) + varint(v as nat),
            forall|j: int| 0 <= j < at ==> buffer@[j] == old(buffer)@[j],
            forall|j: int| at + i <= j < buffer@.len() ==> buffer@[j] == old(buffer)@[j],
        decreases v,
    {
        proof {
            lemma_varint_len(v as nat);
        }
        if i >= avail {
            return Err(SerializationError::BufferTooSmall);
        }
        let ghost before = buffer@;
        if v < 128 {
            buffer[at + i] = v as u8;
            proof {
                assert(buffer@.subrange(at as int, at + i + 1) =~= before.subrange(
                    at as int,
                    at + i,
                ) + varint(v as nat));
                assert(buffer@ =~= overwrite(old(buffer)@, at as int, varint(value as nat)));
            }
            return Ok(i + 1);
        }
        buffer[at + i] = (v % 128 + 128) as u8;
        proof {
            assert(buffer@.subrange(at as int, at + i + 1) =~= before.subrange(at as int, at + i)
                + seq![(v % 128 + 128) as u8]);
        }
        v = v / 128;
        i = i + 1;
    }
}

/// Reads the varint at `at`.
pub fn take_varint(buffer: &[u8], at: usize) -> (r: SerializationResult<(u64, usize)>)
    requires
        at <= buffer@.len(),
    ensures
        match r {
            Ok((v, n)) => parse_varint(buffer@.skip(at as int)) == Some((v, n as nat)),
            Err(e) => parse_varint(buffer@.skip(at as int)) is None && e is InvalidData,
        },
{
    let ghost b = buffer@.skip(at as int);
    let len = buffer.len();
    let avail = len - at;
    let mut value: u64 = 0;
    let mut scale: u64 = 1;
    let mut i: usize = 0;
    proof {
        assert(b.skip(0) =~= b);
    }
    while i < avail
        invariant
            b == buffer@.skip(at as int),
            len == buffer@.len(),
            at <= buffer@.len(),
            avail == buffer@.len() - at,
            avail == b.len(),
            i <= avail,
            i <= 9,
            scale as nat == pow128(i as nat),
            value as nat == digits(b, i as nat) % 0x1_0000_0000_0000_0000,
            stop(b) == i + stop(b.skip(i as int)),
            forall|j: int| 0 <= j < i ==> b[j] >= 128,
        decreases avail - i,
    {
        let byte = buffer[at + i];
        proof {
            lemma_skip_next(b, i as int);
            lemma_digits_step(b, i as nat);
            lemma_pow128_small(i as nat);
            let m: int = 0x1_0000_0000_0000_0000;
            let d = (byte % 128) as nat * scale as nat;
            lemma_add_mod_noop(digits(b, i as nat) as int, d as int, m);
            assert((d as int) % m < m);
        }
        let part = (byte % 128) as u64;
        value = value.wrapping_add(part.wrapping_mul(scale));
        i = i + 1;
        if byte < 128 {
            return Ok((value, i));
        }
        if i == 10 {
            return Err(invalid("varint overflow"));
        }
        proof {
            lemma_pow128_small((i - 1) as nat);
        }
        scale = scale * 128;
    }
    Err(invalid("buffer ended unexpectedly while reading varint"))
}

/// Writes the varint of `value` at the start of `buffer`.
pub fn encode_varint_u64(value: u64, buffer: &mut [u8]) -> (r: SerializationResult<usize>)
    ensures
        final(buffer)@.len() == old(buffer)@.len(),
        match r {
            Ok(n) => n == varint(value as nat).len() && final(buffer)@ == overwrite(
                old(buffer)@,
                0,
                varint(value as nat),
            ),
            Err(e) => e is BufferTooSmall && old(buffer)@.len() < varint(value as nat).len(),
        },
{
    put_varint(buffer, 0, value)
}

/// Reads the varint at the start of `buffer`.
pub fn decode_varint_u64(buffer: &[u8]) -> (r: SerializationResult<(u64, usize)>)
    ensures
        match r {
            Ok((v, n)) => parse_varint(buffer@) == Some((v, n as nat)),
            Err(e) => parse_varint(buffer@) is None && e is InvalidData,
        },
{
    proof {
        assert(buffer@.skip(0) =~= buffer@);
    }
    take_varint(buffer, 0)
}

/// Writes the varint of a 32-bit `value` at the start of `buffer`.
pub fn encode_varint_u32(value: u32, buffer: &mut [u8]) -> (r: SerializationResult<usize>)
    ensures
        final(buffer)@.len() == old(buffer)@.len(),
        match r {
            Ok(n) => n == varint(value as nat).len() && final(buffer)@ == overwrite(
                old(buffer)@,
                0,
                varint(value as nat),
            ),
            Err(e) => e is BufferTooSmall && old(buffer)@.len() < varint(value as nat).len(),
        },
{
    encode_varint_u64(value as u64, buffer)
}

/// Reads a varint at the start of `buffer` whose value must fit in 32 bits.
pub fn decode_varint_u32(buffer: &[u8]) -> (r: SerializationResult<(u32, usize)>)
    ensures
        match r {
            Ok((v, n)) => parse_varint(buffer@) == Some((v as u64, n as nat)),
            Err(e) => e is InvalidData && match parse_varint(buffer@) {
                Some((w, _)) => w > u32::MAX,
                None => true,
            },
        },
{
    let (value, consumed) = decode_varint_u64(buffer)?;
    if value > u32::MAX as u64 {
        return Err(invalid("u32 varint overflow"));
    }
    Ok((value as u32, consumed))
}

pub fn encode_zigzag_i64(value: i64) -> (r: u64)
    ensures
        r as int == zigzag(value as int),
{
    if value >= 0 {
        (value as u64) * 2
    } else {
        ((-(value + 1)) as u64) * 2 + 1
    }
}

pub fn decode_zigzag_i64(value: u64) -> (r: i64)
    ensures
        r as int == unzigzag(value as int),
{
    let half = (value / 2) as i64;
    if value % 2 == 0 {
        half
    } else {
        -half - 1
    }
}

pub fn encode_zigzag_i32(value: i32) -> (r: u32)
    ensures
        r as int == zigzag(value as int),
{
    if value >= 0 {
        (value as u32) * 2
    } else {
        ((-(value + 1)) as u32) * 2 + 1
    }
}

pub fn decode_zigzag_i32(value: u32) -> (r: i32)
    ensures
        r as int == unzigzag(value as int),
{
    let half = (value / 2) as i32;
    if value % 2 == 0 {
        half
    } else {
        -half - 1
    }
}

/// Zig-zag decoding undoes zig-zag encoding, and the code of a 64-bit
/// signed value fits in 64 bits.
pub proof fn lemma_zigzag_round_trip(v: int)
    ensures
        unzigzag(zigzag(v)) == v,
        i64::MIN <= v <= i64::MAX ==> 0 <= zigzag(v) <= u64::MAX,
        i32::MIN <= v <= i32::MAX ==> 0 <= zigzag(v) <= u32::MAX,
{
}

} // verus!
