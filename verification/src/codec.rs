//! Big-endian encoding of the 64-bit counters that the store holds.
use vstd::prelude::*;

verus! {

/// The eight bytes of `value`, most significant byte first.
pub open spec fn be_bytes(value: u64) -> Seq<u8> {
    seq![
        (value >> 56) as u8,
        (value >> 48) as u8,
        (value >> 40) as u8,
        (value >> 32) as u8,
        (value >> 24) as u8,
        (value >> 16) as u8,
        (value >> 8) as u8,
        value as u8,
    ]
}

/// The number that eight bytes hold, most significant byte first; `None`
/// for any other length.
pub open spec fn be_value(bytes: Seq<u8>) -> Option<u64> {
    if bytes.len() == 8 {
        Some(
            (bytes[0] as u64) << 56 | (bytes[1] as u64) << 48 | (bytes[2] as u64) << 40 | (
            bytes[3] as u64) << 32 | (bytes[4] as u64) << 24 | (bytes[5] as u64) << 16 | (
            bytes[6] as u64) << 8 | (bytes[7] as u64),
        )
    } else {
        None
    }
}

/// Decoding undoes encoding.
pub proof fn lemma_be_round_trip(value: u64)
    ensures
        be_value(be_bytes(value)) == Some(value),
{
    let b = be_bytes(value);
    assert(b.len() == 8);
    assert(((value >> 56) as u8 as u64) << 56 | ((value >> 48) as u8 as u64) << 48 | ((value
        >> 40) as u8 as u64) << 40 | ((value >> 32) as u8 as u64) << 32 | ((value >> 24) as u8 as u64)
        << 24 | ((value >> 16) as u8 as u64) << 16 | ((value >> 8) as u8 as u64) << 8 | (
    value as u8 as u64) == value) by (bit_vector);
}

/// Encodes `value` as eight bytes, most significant byte first.
pub fn encode_be_u64(value: u64) -> (bytes: Vec<u8>)
    ensures
        bytes@ == be_bytes(value),
        be_value(bytes@) == Some(value),
{
    let mut bytes: Vec<u8> = Vec::with_capacity(8);
    bytes.push((value >> 56) as u8);
    bytes.push((value >> 48) as u8);
    bytes.push((value >> 40) as u8);
    bytes.push((value >> 32) as u8);
    bytes.push((value >> 24) as u8);
    bytes.push((value >> 16) as u8);
    bytes.push((value >> 8) as u8);
    bytes.push(value as u8);
    proof {
        assert(bytes@ =~= be_bytes(value));
        lemma_be_round_trip(value);
    }
    bytes
}

/// Decodes eight bytes, most significant byte first. Any other length
/// gives `None`.
pub fn decode_be_u64(bytes: &[u8]) -> (value: Option<u64>)
    ensures
        value == be_value(bytes@),
{
    if bytes.len() != 8 {
        return None;
    }
    let value: u64 = (bytes[0] as u64) << 56 | (bytes[1] as u64) << 48 | (bytes[2] as u64) << 40
        | (bytes[3] as u64) << 32 | (bytes[4] as u64) << 24 | (bytes[5] as u64) << 16 | (
    bytes[6] as u64) << 8 | (bytes[7] as u64);
    Some(value)
}

} // verus!
