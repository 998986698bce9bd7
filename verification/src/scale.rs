//! The SCALE encodings this library relies on: little-endian fixed-width
//! integers and byte arrays written out in order.

use parity_scale_codec::{Decode, Encode};
use vstd::prelude::*;

verus! {

/// The little-endian bytes of a `u32`.
pub open spec fn le_bytes_u32(x: u32) -> Seq<u8> {
    seq![
        (x % 0x100) as u8,
        ((x / 0x100) % 0x100) as u8,
        ((x / 0x1_0000) % 0x100) as u8,
        ((x / 0x100_0000) % 0x100) as u8,
    ]
}

/// The number whose little-endian bytes are `b`.
pub open spec fn le_value(b: Seq<u8>) -> nat
    decreases b.len(),
{
    if b.len() == 0 {
        0
    } else {
        b[0] as nat + 0x100 * le_value(b.drop_first())
    }
}

/// Encodes the pair of an eight-byte identifier and a `u32` (`Encode::encode`
/// of parity-scale-codec on a tuple). The codec writes the elements of a
/// tuple in order, a byte array as its bytes, and a `u32` as its four
/// little-endian bytes.
#[verifier::external_body]
pub(crate) fn encode_id_and_u32(id: [u8; 8], x: u32) -> (bytes: Vec<u8>)
    ensures
        bytes@ == id@ + le_bytes_u32(x),
{
    (id, x).encode()
}

/// Decodes a `u32` from the front of `bytes` (`Decode::decode` of
/// parity-scale-codec for `u32`, reading from a byte slice). The codec reads
/// four bytes as a little-endian number and fails when fewer are left.
#[verifier::external_body]
pub(crate) fn decode_u32(bytes: &[u8]) -> (r: Option<u32>)
    ensures
        r is Some <==> bytes@.len() >= 4,
        r matches Some(v) ==> v == le_value(bytes@.take(4)),
{
    let mut input: &[u8] = bytes;
    u32::decode(&mut input).ok()
}

/// Decodes a `u64` from the front of `bytes` (`Decode::decode` of
/// parity-scale-codec for `u64`, reading from a byte slice). The codec reads
/// eight bytes as a little-endian number and fails when fewer are left.
#[verifier::external_body]
pub(crate) fn decode_u64(bytes: &[u8]) -> (r: Option<u64>)
    ensures
        r is Some <==> bytes@.len() >= 8,
        r matches Some(v) ==> v == le_value(bytes@.take(8)),
{
    let mut input: &[u8] = bytes;
    u64::decode(&mut input).ok()
}

} // verus!
