use vstd::prelude::*;
use vstd::slice::slice_to_vec;
use vstd::utf8::{decode_utf8, encode_utf8, valid_utf8};

use crate::endian::{lemma_overwrite_concat, overwrite, put_bytes, Endianness};
use crate::error::{invalid, SerializationError, SerializationResult};
use crate::varint::{
    decode_zigzag_i32, decode_zigzag_i64, encode_zigzag_i32, encode_zigzag_i64,
    lemma_varint_u64_len, parse_varint, put_varint, take_varint,
    unzigzag, varint, zigzag,
};

verus! {

/// A value with a byte encoding of known size.
pub trait Encode: View {
    /// The bytes that encode a value with view `v` in byte order `e`.
    spec fn wire(v: Self::V, e: Endianness) -> Seq<u8>;

    /// The number of those bytes, which does not depend on the byte order.
    spec fn encoded_len(v: Self::V) -> nat;

    proof fn lemma_wire_len(v: Self::V, e: Endianness)
        ensures
            Self::wire(v, e).len() == Self::encoded_len(v),
    ;

    fn encoded_size(&self) -> (r: usize)
        requires
            Self::encoded_len(self@) <= usize::MAX,
        ensures
            r as nat == Self::encoded_len(self@),
    ;

    /// The size of the encoding, or `None` when it does not fit in `usize`.
    fn checked_size(&self) -> (r: Option<usize>)
        ensures
            r is Some <==> Self::encoded_len(self@) <= usize::MAX,
            r matches Some(n) ==> n as nat == Self::encoded_len(self@),
    ;

    /// Writes the encoding at `at`; fails, having perhaps written part of it,
    /// when the buffer has no room for the whole of it.
    fn encode_at(&self, buffer: &mut [u8], at: usize, endianness: Endianness) -> (r:
        SerializationResult<usize>)
        requires
            at <= old(buffer)@.len(),
        ensures
            final(buffer)@.len() == old(buffer)@.len(),
            r is Ok <==> at + Self::encoded_len(self@) <= old(buffer)@.len(),
            match r {
                Ok(n) => n == Self::encoded_len(self@) && final(buffer)@ == overwrite(
                    old(buffer)@,
                    at as int,
                    Self::wire(self@, endianness),
                ),
                Err(e) => e is BufferTooSmall,
            },
    ;

    /// Writes the encoding at the start of `buffer`.
    fn encode_to(&self, buffer: &mut [u8], endianness: Endianness) -> (r: SerializationResult<
        usize,
    >)
        ensures
            final(buffer)@.len() == old(buffer)@.len(),
            r is Ok <==> Self::encoded_len(self@) <= old(buffer)@.len(),
            match r {
                Ok(n) => n == Self::encoded_len(self@) && final(buffer)@ == overwrite(
                    old(buffer)@,
                    0,
                    Self::wire(self@, endianness),
                ),
                Err(e) => e is BufferTooSmall,
            },
    {
        self.encode_at(buffer, 0, endianness)
    }
}

/// A value that can be read back from its byte encoding.
pub trait Decode: View + Sized {
    /// What decoding finds at the start of `b`: the view of the value and the
    /// number of bytes it takes, or nothing when `b` does not start with a
    /// well-formed encoding.
    spec fn parse(b: Seq<u8>, e: Endianness) -> Option<(Self::V, nat)>;

    /// Whether decoding at the start of `b` first fails on a declared length
    /// that, added to the size of its prefix, does not fit in `usize`.
    spec fn overflows(b: Seq<u8>, e: Endianness) -> bool;

    /// Reads a value at `at`.
    fn decode_at(buffer: &[u8], at: usize, endianness: Endianness) -> (r: SerializationResult<
        (Self, usize),
    >)
        requires
            at <= buffer@.len(),
        ensures
            match r {
                Ok((v, n)) => Self::parse(buffer@.skip(at as int), endianness) == Some(
                    (v@, n as nat),
                ) && at + n <= buffer@.len(),
                Err(e) => Self::parse(buffer@.skip(at as int), endianness) is None && if Self::overflows(
                    buffer@.skip(at as int),
                    endianness,
                ) {
                    e is Overflow
                } else {
                    e is InvalidData
                },
            },
            Self::overflows(buffer@.skip(at as int), endianness) ==> r is Err,
    ;

    /// Reads a value at the start of `buffer`.
    fn decode_from(buffer: &[u8], endianness: Endianness) -> (r: SerializationResult<
        (Self, usize),
    >)
        ensures
            match r {
                Ok((v, n)) => Self::parse(buffer@, endianness) == Some((v@, n as nat)) && n
                    <= buffer@.len(),
                Err(e) => Self::parse(buffer@, endianness) is None && if Self::overflows(
                    buffer@,
                    endianness,
                ) {
                    e is Overflow
                } else {
                    e is InvalidData
                },
            },
            Self::overflows(buffer@, endianness) ==> r is Err,
    {
        proof {
            assert(buffer@.skip(0) =~= buffer@);
        }
        Self::decode_at(buffer, 0, endianness)
    }
}

/// The number of bytes in the varint of `v`.
pub fn varint_size(v: u64) -> (r: usize)
    ensures
        r as nat == varint(v as nat).len(),
        1 <= r <= 10,
{
    let mut value = v;
    let mut size: usize = 1;
    proof {
        lemma_varint_u64_len(v as nat);
    }
    while value >= 128
        invariant
            size + varint(value as nat).len() == varint(v as nat).len() + 1,
            varint(v as nat).len() <= 10,
            varint(value as nat).len() >= 1,
        decreases value,
    {
        value = value / 128;
        size = size + 1;
        proof {
            crate::varint::lemma_varint_len(value as nat);
        }
    }
    size
}

/// The length-prefixed form of a byte string.
pub open spec fn bytes_wire(b: Seq<u8>) -> Seq<u8> {
    varint(b.len()) + b
}

/// What decoding a length-prefixed byte string finds at the start of `b`.
pub open spec fn parse_bytes(b: Seq<u8>) -> Option<(Seq<u8>, nat)> {
    match parse_varint(b) {
        Some((len, k)) => if k + len <= b.len() {
            Some((b.subrange(k as int, k + len), (k + len) as nat))
        } else {
            None
        },
        None => None,
    }
}

/// `b` starts with a declared length that, added to the size of its prefix,
/// does not fit in `usize`.
pub open spec fn length_overflows(b: Seq<u8>) -> bool {
    parse_varint(b) matches Some((len, k)) && k + len > usize::MAX
}

/// Writes the length-prefixed form of `src` at `at`.
pub fn put_prefixed(buffer: &mut [u8], at: usize, src: &[u8]) -> (r: SerializationResult<usize>)
    requires
        at <= old(buffer)@.len(),
    ensures
        final(buffer)@.len() == old(buffer)@.len(),
        r is Ok <==> at + bytes_wire(src@).len() <= old(buffer)@.len(),
        match r {
            Ok(n) => n == bytes_wire(src@).len() && final(buffer)@ == overwrite(
                old(buffer)@,
                at as int,
                bytes_wire(src@),
            ),
            Err(e) => e is BufferTooSmall,
        },
{
    let len = src.len();
    let prefix = varint_size(len as u64);
    if buffer.len() - at < prefix || buffer.len() - at - prefix < len {
        return Err(SerializationError::BufferTooSmall);
    }
    let written = put_varint(buffer, at, len as u64);
    match written {
        Ok(k) => {
            put_bytes(buffer, at + k, src);
            proof {
                lemma_overwrite_concat(old(buffer)@, at as int, varint(len as nat), src@);
            }
            Ok(k + len)
        },
        Err(e) => Err(e),
    }
}

/// Reads a length-prefixed byte string at `at`: its bytes run from the first
/// returned offset to the second.
pub fn take_prefixed(buffer: &[u8], at: usize) -> (r: SerializationResult<(usize, usize)>)
    requires
        at <= buffer@.len(),
    ensures
        match r {
            Ok((start, end)) => at <= start <= end <= buffer@.len() && parse_bytes(
                buffer@.skip(at as int),
            ) == Some((buffer@.subrange(start as int, end as int), (end - at) as nat)),
            Err(e) => parse_bytes(buffer@.skip(at as int)) is None && if length_overflows(
                buffer@.skip(at as int),
            ) {
                e is Overflow
            } else {
                e is InvalidData
            },
        },
        length_overflows(buffer@.skip(at as int)) ==> r is Err,
{
    let total = buffer.len();
    let (len, k) = take_varint(buffer, at)?;
    let ghost b = buffer@.skip(at as int);
    if len > (usize::MAX - k) as u64 {
        return Err(SerializationError::Overflow);
    }
    if k > buffer.len() - at || len > (buffer.len() - at - k) as u64 {
        return Err(invalid("declared length exceeds the buffer"));
    }
    let start = at + k;
    proof {
        assert(b.subrange(k as int, k + len) =~= buffer@.subrange(start as int, start + len));
    }
    Ok((start, start + len as usize))
}

impl Encode for u64 {
    open spec fn wire(v: u64, e: Endianness) -> Seq<u8> {
        varint(v as nat)
    }

    open spec fn encoded_len(v: u64) -> nat {
        varint(v as nat).len()
    }

    proof fn lemma_wire_len(v: u64, e: Endianness) {
    }

    fn encoded_size(&self) -> (r: usize) {
        assert(Self::encoded_len(self@) == varint(*self as nat).len());
        varint_size(*self)
    }

    fn checked_size(&self) -> (r: Option<usize>) {
        Some(varint_size(*self))
    }

    fn encode_at(&self, buffer: &mut [u8], at: usize, endianness: Endianness) -> (r:
        SerializationResult<usize>) {
        assert(self@ == *self);
        assert(Self::encoded_len(self@) == varint(*self as nat).len());
        assert(Self::wire(self@, endianness) == varint(*self as nat));
        put_varint(buffer, at, *self)
    }
}

impl Decode for u64 {
    open spec fn parse(b: Seq<u8>, e: Endianness) -> Option<(u64, nat)> {
        parse_varint(b)
    }

    open spec fn overflows(b: Seq<u8>, e: Endianness) -> bool {
        false
    }

    fn decode_at(buffer: &[u8], at: usize, endianness: Endianness) -> (r: SerializationResult<
        (u64, usize),
    >) {
        assert(Self::parse(buffer@.skip(at as int), endianness) == parse_varint(
            buffer@.skip(at as int),
        ));
        take_varint(buffer, at)
    }
}

impl Encode for u32 {
    open spec fn wire(v: u32, e: Endianness) -> Seq<u8> {
        varint(v as nat)
    }

    open spec fn encoded_len(v: u32) -> nat {
        varint(v as nat).len()
    }

    proof fn lemma_wire_len(v: u32, e: Endianness) {
    }

    fn encoded_size(&self) -> (r: usize) {
        varint_size(*self as u64)
    }

    fn checked_size(&self) -> (r: Option<usize>) {
        Some(varint_size(*self as u64))
    }

    fn encode_at(&self, buffer: &mut [u8], at: usize, endianness: Endianness) -> (r:
        SerializationResult<usize>) {
        put_varint(buffer, at, *self as u64)
    }
}

impl Decode for u32 {
    open spec fn parse(b: Seq<u8>, e: Endianness) -> Option<(u32, nat)> {
        match parse_varint(b) {
            Some((v, n)) => if v <= u32::MAX {
                Some((v as u32, n))
            } else {
                None
            },
            None => None,
        }
    }

    open spec fn overflows(b: Seq<u8>, e: Endianness) -> bool {
        false
    }

    fn decode_at(buffer: &[u8], at: usize, endianness: Endianness) -> (r: SerializationResult<
        (u32, usize),
    >) {
        let (value, consumed) = take_varint(buffer, at)?;
        if value > u32::MAX as u64 {
            return Err(invalid("u32 varint overflow"));
        }
        Ok((value as u32, consumed))
    }
}

impl Encode for i64 {
    open spec fn wire(v: i64, e: Endianness) -> Seq<u8> {
        varint(zigzag(v as int) as nat)
    }

    open spec fn encoded_len(v: i64) -> nat {
        varint(zigzag(v as int) as nat).len()
    }

    proof fn lemma_wire_len(v: i64, e: Endianness) {
    }

    fn encoded_size(&self) -> (r: usize) {
        varint_size(encode_zigzag_i64(*self))
    }

    fn checked_size(&self) -> (r: Option<usize>) {
        Some(varint_size(encode_zigzag_i64(*self)))
    }

    fn encode_at(&self, buffer: &mut [u8], at: usize, endianness: Endianness) -> (r:
        SerializationResult<usize>) {
        put_varint(buffer, at, encode_zigzag_i64(*self))
    }
}

impl Decode for i64 {
    open spec fn parse(b: Seq<u8>, e: Endianness) -> Option<(i64, nat)> {
        match parse_varint(b) {
            Some((v, n)) => Some((unzigzag(v as int) as i64, n)),
            None => None,
        }
    }

    open spec fn overflows(b: Seq<u8>, e: Endianness) -> bool {
        false
    }

    fn decode_at(buffer: &[u8], at: usize, endianness: Endianness) -> (r: SerializationResult<
        (i64, usize),
    >) {
        let (value, consumed) = take_varint(buffer, at)?;
        Ok((decode_zigzag_i64(value), consumed))
    }
}

impl Encode for i32 {
    open spec fn wire(v: i32, e: Endianness) -> Seq<u8> {
        varint(zigzag(v as int) as nat)
    }

    open spec fn encoded_len(v: i32) -> nat {
        varint(zigzag(v as int) as nat).len()
    }

    proof fn lemma_wire_len(v: i32, e: Endianness) {
    }

    fn encoded_size(&self) -> (r: usize) {
        varint_size(encode_zigzag_i32(*self) as u64)
    }

    fn checked_size(&self) -> (r: Option<usize>) {
        Some(varint_size(encode_zigzag_i32(*self) as u64))
    }

    fn encode_at(&self, buffer: &mut [u8], at: usize, endianness: Endianness) -> (r:
        SerializationResult<usize>) {
        put_varint(buffer, at, encode_zigzag_i32(*self) as u64)
    }
}

impl Decode for i32 {
    open spec fn parse(b: Seq<u8>, e: Endianness) -> Option<(i32, nat)> {
        match parse_varint(b) {
            Some((v, n)) => if v <= u32::MAX {
                Some((unzigzag(v as int) as i32, n))
            } else {
                None
            },
            None => None,
        }
    }

    open spec fn overflows(b: Seq<u8>, e: Endianness) -> bool {
        false
    }

    fn decode_at(buffer: &[u8], at: usize, endianness: Endianness) -> (r: SerializationResult<
        (i32, usize),
    >) {
        let (value, consumed) = take_varint(buffer, at)?;
        if value > u32::MAX as u64 {
            return Err(invalid("u32 varint overflow"));
        }
        Ok((decode_zigzag_i32(value as u32), consumed))
    }
}

impl Encode for bool {
    open spec fn wire(v: bool, e: Endianness) -> Seq<u8> {
        seq![if v { 1u8 } else { 0u8 }]
    }

    open spec fn encoded_len(v: bool) -> nat {
        1
    }

    proof fn lemma_wire_len(v: bool, e: Endianness) {
    }

    fn encoded_size(&self) -> (r: usize) {
        1
    }

    fn checked_size(&self) -> (r: Option<usize>) {
        Some(1)
    }

    fn encode_at(&self, buffer: &mut [u8], at: usize, endianness: Endianness) -> (r:
        SerializationResult<usize>) {
        if at >= buffer.len() {
            return Err(SerializationError::BufferTooSmall);
        }
        buffer[at] = if *self {
            1
        } else {
            0
        };
        proof {
            assert(buffer@ =~= overwrite(old(buffer)@, at as int, Self::wire(self@, endianness)));
        }
        Ok(1)
    }
}

impl Decode for bool {
    open spec fn parse(b: Seq<u8>, e: Endianness) -> Option<(bool, nat)> {
        if b.len() >= 1 && b[0] <= 1 {
            Some((b[0] == 1, 1))
        } else {
            None
        }
    }

    open spec fn overflows(b: Seq<u8>, e: Endianness) -> bool {
        false
    }

    fn decode_at(buffer: &[u8], at: usize, endianness: Endianness) -> (r: SerializationResult<
        (bool, usize),
    >) {
        if at >= buffer.len() {
            return Err(invalid("empty buffer when expecting bool"));
        }
        match buffer[at] {
            0 => Ok((false, 1)),
            1 => Ok((true, 1)),
            _ => Err(invalid("invalid bool value")),
        }
    }
}

impl Encode for Vec<u8> {
    open spec fn wire(v: Seq<u8>, e: Endianness) -> Seq<u8> {
        bytes_wire(v)
    }

    open spec fn encoded_len(v: Seq<u8>) -> nat {
        bytes_wire(v).len()
    }

    proof fn lemma_wire_len(v: Seq<u8>, e: Endianness) {
    }

    fn encoded_size(&self) -> (r: usize) {
        assert(Self::encoded_len(self@) == bytes_wire(self@).len());
        varint_size(self.len() as u64) + self.len()
    }

    fn checked_size(&self) -> (r: Option<usize>) {
        assert(Self::encoded_len(self@) == bytes_wire(self@).len());
        varint_size(self.len() as u64).checked_add(self.len())
    }

    fn encode_at(&self, buffer: &mut [u8], at: usize, endianness: Endianness) -> (r:
        SerializationResult<usize>) {
        assert(Self::encoded_len(self@) == bytes_wire(self@).len());
        assert(Self::wire(self@, endianness) == bytes_wire(self@));
        put_prefixed(buffer, at, self.as_slice())
    }
}

impl Decode for Vec<u8> {
    open spec fn parse(b: Seq<u8>, e: Endianness) -> Option<(Seq<u8>, nat)> {
        parse_bytes(b)
    }

    open spec fn overflows(b: Seq<u8>, e: Endianness) -> bool {
        length_overflows(b)
    }

    fn decode_at(buffer: &[u8], at: usize, endianness: Endianness) -> (r: SerializationResult<
        (Vec<u8>, usize),
    >) {
        assert(Self::parse(buffer@.skip(at as int), endianness) == parse_bytes(
            buffer@.skip(at as int),
        ));
        let (start, end) = take_prefixed(buffer, at)?;
        let bytes = slice_to_vec(&buffer[start..end]);
        Ok((bytes, end - at))
    }
}

/// Relies on `std::str::from_utf8`: it accepts exactly the well-formed UTF-8
/// byte strings, and the text it returns is the one they encode.
#[verifier::external_body]
fn utf8_text(b: &[u8]) -> (r: Option<String>)
    ensures
        r is Some <==> valid_utf8(b@),
        r matches Some(s) ==> s@ == decode_utf8(b@),
{
    match std::str::from_utf8(b) {
        Ok(s) => Some(s.to_owned()),
        Err(_) => None,
    }
}

/// Reads UTF-8 text from `b`.
pub fn text_from_utf8(b: &[u8]) -> (r: SerializationResult<String>)
    ensures
        r is Ok <==> valid_utf8(b@),
        match r {
            Ok(s) => s@ == decode_utf8(b@),
            Err(e) => e is InvalidData,
        },
{
    match utf8_text(b) {
        Some(s) => Ok(s),
        None => Err(invalid("invalid UTF-8")),
    }
}

/// What decoding length-prefixed UTF-8 text finds at the start of `b`.
pub open spec fn parse_text(b: Seq<u8>) -> Option<(Seq<char>, nat)> {
    match parse_bytes(b) {
        Some((bytes, n)) => if valid_utf8(bytes) {
            Some((decode_utf8(bytes), n))
        } else {
            None
        },
        None => None,
    }
}

impl Encode for String {
    open spec fn wire(v: Seq<char>, e: Endianness) -> Seq<u8> {
        bytes_wire(encode_utf8(v))
    }

    open spec fn encoded_len(v: Seq<char>) -> nat {
        bytes_wire(encode_utf8(v)).len()
    }

    proof fn lemma_wire_len(v: Seq<char>, e: Endianness) {
    }

    fn encoded_size(&self) -> (r: usize) {
        assert(Self::encoded_len(self@) == bytes_wire(encode_utf8(self@)).len());
        let bytes = self.as_str().as_bytes();
        varint_size(bytes.len() as u64) + bytes.len()
    }

    fn checked_size(&self) -> (r: Option<usize>) {
        assert(Self::encoded_len(self@) == bytes_wire(encode_utf8(self@)).len());
        let bytes = self.as_str().as_bytes();
        varint_size(bytes.len() as u64).checked_add(bytes.len())
    }

    fn encode_at(&self, buffer: &mut [u8], at: usize, endianness: Endianness) -> (r:
        SerializationResult<usize>) {
        assert(Self::encoded_len(self@) == bytes_wire(encode_utf8(self@)).len());
        assert(Self::wire(self@, endianness) == bytes_wire(encode_utf8(self@)));
        put_prefixed(buffer, at, self.as_str().as_bytes())
    }
}

impl Decode for String {
    open spec fn parse(b: Seq<u8>, e: Endianness) -> Option<(Seq<char>, nat)> {
        parse_text(b)
    }

    open spec fn overflows(b: Seq<u8>, e: Endianness) -> bool {
        length_overflows(b)
    }

    fn decode_at(buffer: &[u8], at: usize, endianness: Endianness) -> (r: SerializationResult<
        (String, usize),
    >) {
        assert(Self::parse(buffer@.skip(at as int), endianness) == parse_text(
            buffer@.skip(at as int),
        ));
        let (start, end) = take_prefixed(buffer, at)?;
        let text = text_from_utf8(&buffer[start..end])?;
        Ok((text, end - at))
    }
}

/// A length-prefixed byte string reads back whole, whatever follows it.
pub proof fn lemma_bytes_round_trip(x: Seq<u8>, rest: Seq<u8>)
    requires
        x.len() <= u64::MAX,
    ensures
        parse_bytes(bytes_wire(x) + rest) == Some((x, bytes_wire(x).len())),
{
    let b = bytes_wire(x) + rest;
    let k = varint(x.len()).len();
    assert(b =~= varint(x.len()) + (x + rest));
    crate::varint::lemma_varint_round_trip(x.len(), x + rest);
    assert(b.subrange(k as int, (k + x.len()) as int) =~= x);
}

/// Length-prefixed UTF-8 text reads back whole, whatever follows it.
pub proof fn lemma_text_round_trip(s: Seq<char>, rest: Seq<u8>)
    requires
        encode_utf8(s).len() <= u64::MAX,
    ensures
        parse_text(bytes_wire(encode_utf8(s)) + rest) == Some(
            (s, bytes_wire(encode_utf8(s)).len()),
        ),
{
    lemma_bytes_round_trip(encode_utf8(s), rest);
    vstd::utf8::encode_utf8_valid_utf8(s);
    vstd::utf8::encode_utf8_decode_utf8(s);
}

} // verus!
