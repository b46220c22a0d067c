use vstd::prelude::*;

verus! {

/// What can go wrong while encoding or decoding.
#[derive(Debug)]
pub enum SerializationError {
    /// The stored digest of a frame differs from the digest of its payload.
    ChecksumMismatch { stored: Vec<u8>, computed: Vec<u8> },
    /// The bytes do not form a well-formed encoding.
    InvalidData(String),
    /// The destination cannot hold the next field.
    BufferTooSmall,
    /// A length or a size does not fit its field.
    Overflow,
}

pub type SerializationResult<T> = Result<T, SerializationError>;

/// A structural error carrying a short description.
pub fn invalid(msg: &str) -> (r: SerializationError)
    ensures
        r is InvalidData,
{
    SerializationError::InvalidData(msg.to_owned())
}

} // verus!
