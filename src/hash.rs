//! 256-bit digests: SHA-256 over a canonical byte encoding.

use vstd::prelude::*;
use crate::uint::U256;

verus! {

#[verifier::external_type_specification]
#[verifier::external_body]
pub struct ExFromHexError(hex::FromHexError);

/// What `sha256::digest` returns for the given bytes.
pub uninterp spec fn sha256_hex_of(data: Seq<u8>) -> Seq<char>;

pub open spec fn is_lower_hex_digit(c: char) -> bool {
    (48 <= c as u32 <= 57) || (97 <= c as u32 <= 102)
}

pub open spec fn is_hex_digit(c: char) -> bool {
    is_lower_hex_digit(c) || (65 <= c as u32 <= 70)
}

pub open spec fn hex_digit_value(c: char) -> int {
    if c as u32 <= 57 {
        c as u32 - 48
    } else if c as u32 <= 70 {
        c as u32 - 55
    } else {
        c as u32 - 87
    }
}

/// The bytes that a string of hex digits spells, two digits per byte, high digit first.
pub open spec fn hex_decoded(s: Seq<char>) -> Seq<u8> {
    Seq::new(s.len() / 2, |i: int| (16 * hex_digit_value(s[2 * i]) + hex_digit_value(s[2 * i + 1])) as u8)
}

/// Relies on sha256::digest: the SHA-256 digest of the bytes as 64 lower-case hex digits.
#[verifier::external_body]
fn sha256_hex(data: &[u8]) -> (r: String)
    ensures
        r@ == sha256_hex_of(data@),
        r@.len() == 64,
        forall|i: int| 0 <= i < 64 ==> is_lower_hex_digit(#[trigger] r@[i]),
{
    sha256::digest(data)
}

/// Relies on hex::decode: a string of even length made of hex digits decodes to its bytes.
#[verifier::external_body]
fn hex_decode(s: &String) -> (r: Result<Vec<u8>, hex::FromHexError>)
    ensures
        (s@.len() % 2 == 0 && forall|i: int| 0 <= i < s@.len() ==> is_hex_digit(#[trigger] s@[i]))
            ==> (r is Ok && r->Ok_0@ == hex_decoded(s@)),
{
    hex::decode(s)
}

/// The big-endian 64-bit word at `off`.
pub open spec fn be_u64_at(b: Seq<u8>, off: int) -> u64 {
    ((b[off] as u64) << 56u64) | ((b[off + 1] as u64) << 48u64) | ((b[off + 2] as u64) << 40u64)
        | ((b[off + 3] as u64) << 32u64) | ((b[off + 4] as u64) << 24u64) | ((b[off + 5] as u64)
        << 16u64) | ((b[off + 6] as u64) << 8u64) | (b[off + 7] as u64)
}

fn be_u64_exec(b: &Vec<u8>, off: usize) -> (r: u64)
    requires
        off <= 24,
        b@.len() == 32,
    ensures
        r == be_u64_at(b@, off as int),
{
    ((b[off] as u64) << 56u64) | ((b[off + 1] as u64) << 48u64) | ((b[off + 2] as u64) << 40u64)
        | ((b[off + 3] as u64) << 32u64) | ((b[off + 4] as u64) << 24u64) | ((b[off + 5] as u64)
        << 16u64) | ((b[off + 6] as u64) << 8u64) | (b[off + 7] as u64)
}

/// Byte `k` (0 = least significant) of a 64-bit word.
pub open spec fn byte_of(x: u64, k: u64) -> u8 {
    ((x >> (8 * k) as u64) & 0xffu64) as u8
}

pub open spec fn limb(u: U256, k: int) -> u64 {
    if k == 0 {
        u.w0
    } else if k == 1 {
        u.w1
    } else if k == 2 {
        u.w2
    } else {
        u.w3
    }
}

/// The 32 little-endian bytes of a 256-bit value.
pub open spec fn le_bytes(u: U256) -> Seq<u8> {
    Seq::new(32, |i: int| byte_of(limb(u, i / 8), (i % 8) as u64))
}

/// A 256-bit digest; ordered as the unsigned integer it spells.
#[derive(Clone, Copy, Debug, PartialEq, Eq, Structural)]
pub struct Hash(pub U256);

impl Hash {
    /// The digest whose 32 bytes, read big-endian, are `b`.
    pub open spec fn from_digest_bytes(b: Seq<u8>) -> Hash {
        Hash(
            U256 {
                w3: be_u64_at(b, 0),
                w2: be_u64_at(b, 8),
                w1: be_u64_at(b, 16),
                w0: be_u64_at(b, 24),
            },
        )
    }

    /// The digest of a byte string.
    pub open spec fn of(data: Seq<u8>) -> Hash {
        Hash::from_digest_bytes(hex_decoded(sha256_hex_of(data)))
    }

    /// SHA-256 of the bytes, as a 256-bit number.
    pub fn hash(data: &Vec<u8>) -> (r: Hash)
        ensures
            r == Hash::of(data@),
    {
        let hex = sha256_hex(data.as_slice());
        proof {
            assert forall|i: int| 0 <= i < hex@.len() implies is_hex_digit(#[trigger] hex@[i]) by {
                assert(is_lower_hex_digit(hex@[i]));
            }
        }
        match hex_decode(&hex) {
            Ok(bytes) => {
                Hash(
                    U256 {
                        w3: be_u64_exec(&bytes, 0),
                        w2: be_u64_exec(&bytes, 8),
                        w1: be_u64_exec(&bytes, 16),
                        w0: be_u64_exec(&bytes, 24),
                    },
                )
            },
            Err(_) => {
                proof {
                    assert(false);
                }
                Hash::zero()
            },
        }
    }

    /// The digest's 32 bytes, least significant first.
    pub fn as_bytes(&self) -> (r: [u8; 32])
        ensures
            r@ == le_bytes(self.0),
    {
        let mut out = [0u8; 32];
        let mut i: usize = 0;
        while i < 32
            invariant
                0 <= i <= 32,
                out@.len() == 32,
                forall|j: int| 0 <= j < i ==> out@[j] == le_bytes(self.0)[j],
            decreases 32 - i,
        {
            let w: u64 = if i < 8 {
                self.0.w0
            } else if i < 16 {
                self.0.w1
            } else if i < 24 {
                self.0.w2
            } else {
                self.0.w3
            };
            let k: u64 = (i % 8) as u64;
            out[i] = ((w >> (8 * k)) & 0xffu64) as u8;
            i += 1;
        }
        assert(out@ =~= le_bytes(self.0));
        out
    }

    /// Whether the digest, as a number, lies strictly below `target`.
    pub fn matches_target(&self, target: U256) -> (r: bool)
        ensures
            r == (self.0.value() < target.value()),
    {
        self.0.lt(&target)
    }

    /// The all-zero digest.
    pub fn zero() -> (r: Hash)
        ensures
            r == Hash::zero_spec(),
            r.0.value() == 0,
    {
        Hash(U256::zero())
    }

    pub open spec fn zero_spec() -> Hash {
        Hash(U256 { w0: 0, w1: 0, w2: 0, w3: 0 })
    }
}

} // verus!
