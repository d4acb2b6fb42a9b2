//! Length-prefixed framing for encoded messages: an 8-byte big-endian length, then
//! that many payload bytes.

use vstd::prelude::*;
use crate::encode::{enc_u64, enc_bytes, push_bytes};
use crate::hash::{be_u64_at, byte_of};

verus! {

/// The frame that carries `payload`.
pub fn frame(payload: &Vec<u8>) -> (r: Vec<u8>)
    ensures
        r@ == enc_u64(payload@.len() as u64) + payload@,
{
    let mut out: Vec<u8> = Vec::new();
    push_bytes(&mut out, payload);
    assert(out@ =~= enc_bytes(payload@));
    out
}

/// The payload length that an 8-byte frame prefix announces.
pub fn frame_length(prefix: &[u8]) -> (r: Option<u64>)
    ensures
        prefix@.len() == 8 ==> r == Some(be_u64_at(prefix@, 0)),
        prefix@.len() != 8 ==> r is None,
{
    if prefix.len() != 8 {
        return None;
    }
    Some(
        ((prefix[0] as u64) << 56u64) | ((prefix[1] as u64) << 48u64) | ((prefix[2] as u64)
            << 40u64) | ((prefix[3] as u64) << 32u64) | ((prefix[4] as u64) << 24u64) | ((
        prefix[5] as u64) << 16u64) | ((prefix[6] as u64) << 8u64) | (prefix[7] as u64),
    )
}

/// Reading the prefix of a frame gives back the length it was made with.
pub proof fn lemma_frame_length_round_trip(x: u64)
    ensures
        be_u64_at(enc_u64(x), 0) == x,
{
    let b = enc_u64(x);
    assert(b[0] == byte_of(x, 7) && b[1] == byte_of(x, 6) && b[2] == byte_of(x, 5) && b[3]
        == byte_of(x, 4));
    assert(b[4] == byte_of(x, 3) && b[5] == byte_of(x, 2) && b[6] == byte_of(x, 1) && b[7]
        == byte_of(x, 0));
    assert(((((x >> 56u64) & 0xffu64) as u8 as u64) << 56u64) | ((((x >> 48u64) & 0xffu64) as u8
        as u64) << 48u64) | ((((x >> 40u64) & 0xffu64) as u8 as u64) << 40u64) | ((((x >> 32u64)
        & 0xffu64) as u8 as u64) << 32u64) | ((((x >> 24u64) & 0xffu64) as u8 as u64) << 24u64)
        | ((((x >> 16u64) & 0xffu64) as u8 as u64) << 16u64) | ((((x >> 8u64) & 0xffu64) as u8
        as u64) << 8u64) | (((x >> 0u64) & 0xffu64) as u8 as u64) == x) by (bit_vector);
}

} // verus!
