//! The canonical byte encoding that digests are taken over.

use vstd::prelude::*;
use crate::hash::byte_of;
use crate::uint::U256;

verus! {

/// A 64-bit word, big-endian.
pub open spec fn enc_u64(x: u64) -> Seq<u8> {
    Seq::new(8, |i: int| byte_of(x, (7 - i) as u64))
}

/// A 256-bit value, most significant limb first.
pub open spec fn enc_u256(u: U256) -> Seq<u8> {
    enc_u64(u.w3) + enc_u64(u.w2) + enc_u64(u.w1) + enc_u64(u.w0)
}

/// A byte string, preceded by its length.
pub open spec fn enc_bytes(b: Seq<u8>) -> Seq<u8> {
    enc_u64(b.len() as u64) + b
}

pub fn push_u64(out: &mut Vec<u8>, x: u64)
    ensures
        final(out)@ == old(out)@ + enc_u64(x),
{
    let ghost start = out@;
    let mut k: u64 = 8;
    while k > 0
        invariant
            k <= 8,
            out@ == start + enc_u64(x).subrange(0, 8 - k),
        decreases k,
    {
        k -= 1;
        out.push(((x >> (8 * k)) & 0xffu64) as u8);
        assert(out@ =~= start + enc_u64(x).subrange(0, 8 - k));
    }
    assert(enc_u64(x).subrange(0, 8) =~= enc_u64(x));
}

pub fn push_u256(out: &mut Vec<u8>, u: &U256)
    ensures
        final(out)@ == old(out)@ + enc_u256(*u),
{
    let ghost start = out@;
    push_u64(out, u.w3);
    push_u64(out, u.w2);
    push_u64(out, u.w1);
    push_u64(out, u.w0);
    assert(out@ =~= start + enc_u256(*u));
}

pub fn push_bytes(out: &mut Vec<u8>, b: &Vec<u8>)
    ensures
        final(out)@ == old(out)@ + enc_bytes(b@),
{
    let ghost start = out@;
    push_u64(out, b.len() as u64);
    let ghost mid = out@;
    let mut i: usize = 0;
    while i < b.len()
        invariant
            0 <= i <= b@.len(),
            out@ == mid + b@.subrange(0, i as int),
        decreases b@.len() - i,
    {
        out.push(b[i]);
        i += 1;
        assert(out@ =~= mid + b@.subrange(0, i as int));
    }
    assert(b@.subrange(0, b@.len() as int) =~= b@);
    assert(out@ =~= start + enc_bytes(b@));
}

} // verus!
