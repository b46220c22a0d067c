use vstd::prelude::*;

use crate::endian::{fixed_bytes, fixed_value, get_u32, get_u64, overwrite, Endianness};
use crate::error::{invalid, SerializationError, SerializationResult};

verus! {

/// Writes `value` on the first eight bytes of `buffer`.
pub fn encode_fixed_u64(value: u64, buffer: &mut [u8], endianness: Endianness) -> (r:
    SerializationResult<usize>)
    ensures
        old(buffer)@.len() >= 8 ==> r == Ok::<usize, SerializationError>(8) && final(buffer)@
            == overwrite(old(buffer)@, 0, fixed_bytes(value as nat, 8, endianness)),
        old(buffer)@.len() < 8 ==> (r matches Err(SerializationError::BufferTooSmall))
            && final(buffer)@ == old(buffer)@,
{
    if buffer.len() < 8 {
        return Err(SerializationError::BufferTooSmall);
    }
    endianness.write_u64(value, buffer)
}

/// Reads the first eight bytes of `buffer`.
pub fn decode_fixed_u64(buffer: &[u8], endianness: Endianness) -> (r: SerializationResult<
    (u64, usize),
>)
    ensures
        r is Ok <==> buffer@.len() >= 8,
        match r {
            Ok((v, n)) => n == 8 && v as nat == fixed_value(buffer@.subrange(0, 8), endianness),
            Err(e) => e is InvalidData,
        },
{
    if buffer.len() < 8 {
        return Err(invalid("buffer too small for fixed u64"));
    }
    Ok((get_u64(buffer, 0, endianness), 8))
}

/// Writes `value` on the first four bytes of `buffer`.
pub fn encode_fixed_u32(value: u32, buffer: &mut [u8], endianness: Endianness) -> (r:
    SerializationResult<usize>)
    ensures
        old(buffer)@.len() >= 4 ==> r == Ok::<usize, SerializationError>(4) && final(buffer)@
            == overwrite(old(buffer)@, 0, fixed_bytes(value as nat, 4, endianness)),
        old(buffer)@.len() < 4 ==> (r matches Err(SerializationError::BufferTooSmall))
            && final(buffer)@ == old(buffer)@,
{
    if buffer.len() < 4 {
        return Err(SerializationError::BufferTooSmall);
    }
    endianness.write_u32(value, buffer)
}

/// Reads the first four bytes of `buffer`.
pub fn decode_fixed_u32(buffer: &[u8], endianness: Endianness) -> (r: SerializationResult<
    (u32, usize),
>)
    ensures
        r is Ok <==> buffer@.len() >= 4,
        match r {
            Ok((v, n)) => n == 4 && v as nat == fixed_value(buffer@.subrange(0, 4), endianness),
            Err(e) => e is InvalidData,
        },
{
    if buffer.len() < 4 {
        return Err(invalid("buffer too small for fixed u32"));
    }
    Ok((get_u32(buffer, 0, endianness), 4))
}

} // verus!
