//! Keys and signatures over secp256k1, held as plain bytes.

use vstd::prelude::*;
use ecdsa::signature::{Signer, Verifier};
use crate::hash::le_bytes;

verus! {

/// Whether `k256`'s ECDSA accepts `sig` as a signature of `msg` under the SEC1-encoded `key`.
pub uninterp spec fn ecdsa_accepts(key: Seq<u8>, msg: Seq<u8>, sig: Seq<u8>) -> bool;

/// The deterministic (RFC 6979) ECDSA signature of `msg` under the 32-byte `secret`,
/// or `None` where the secret is no valid scalar or signing fails.
pub uninterp spec fn ecdsa_signature_of(secret: Seq<u8>, msg: Seq<u8>) -> Option<Seq<u8>>;

/// The compressed SEC1 public key of the 32-byte `secret`, or `None` where it is no valid scalar.
pub uninterp spec fn ecdsa_public_key_of(secret: Seq<u8>) -> Option<Seq<u8>>;

/// Relies on k256's `VerifyingKey::verify`, after `VerifyingKey::from_sec1_bytes` and
/// `Signature::from_slice`; bytes that do not decode are not accepted.
#[verifier::external_body]
fn ecdsa_verify(key: &[u8], msg: &[u8], sig: &[u8]) -> (r: bool)
    ensures
        r == ecdsa_accepts(key@, msg@, sig@),
{
    match (k256::ecdsa::VerifyingKey::from_sec1_bytes(key), k256::ecdsa::Signature::from_slice(sig)) {
        (Ok(k), Ok(s)) => k.verify(msg, &s).is_ok(),
        _ => false,
    }
}

/// Relies on k256's `SigningKey::try_sign` (deterministic nonces), after `SigningKey::from_slice`.
#[verifier::external_body]
fn ecdsa_sign(secret: &[u8], msg: &[u8]) -> (r: Option<Vec<u8>>)
    ensures
        match r {
            Some(v) => ecdsa_signature_of(secret@, msg@) == Some(v@),
            None => ecdsa_signature_of(secret@, msg@) is None,
        },
{
    let key = match k256::ecdsa::SigningKey::from_slice(secret) {
        Ok(k) => k,
        Err(_) => return None,
    };
    let sig: Result<k256::ecdsa::Signature, _> = key.try_sign(msg);
    match sig {
        Ok(s) => Some(s.to_bytes().to_vec()),
        Err(_) => None,
    }
}

/// Relies on k256's `SigningKey::verifying_key` and `VerifyingKey::to_sec1_bytes` (compressed),
/// after `SigningKey::from_slice`.
#[verifier::external_body]
fn ecdsa_public_key(secret: &[u8]) -> (r: Option<Vec<u8>>)
    ensures
        match r {
            Some(v) => ecdsa_public_key_of(secret@) == Some(v@),
            None => ecdsa_public_key_of(secret@) is None,
        },
{
    match k256::ecdsa::SigningKey::from_slice(secret) {
        Ok(k) => Some(k.verifying_key().to_sec1_bytes().to_vec()),
        Err(_) => None,
    }
}

/// Relies on k256's `SigningKey::random` over rand's `thread_rng`, and `SigningKey::to_bytes`
/// (the 32-byte field encoding of the secret scalar).
#[verifier::external_body]
fn ecdsa_random_secret() -> (r: Vec<u8>)
    ensures
        r@.len() == 32,
{
    k256::ecdsa::SigningKey::random(&mut rand::thread_rng()).to_bytes().to_vec()
}

/// A SEC1-encoded secp256k1 public key.
#[derive(Clone, Debug, PartialEq, Eq)]
pub struct PublicKey(pub Vec<u8>);

/// An ECDSA signature, as its 64 bytes `r || s`.
#[derive(Clone, Debug)]
pub struct Signature(pub Vec<u8>);

/// A secp256k1 secret scalar, as 32 big-endian bytes.
#[derive(Clone, Debug)]
pub struct PrivateKey(pub Vec<u8>);

impl View for PublicKey {
    type V = Seq<u8>;

    open spec fn view(&self) -> Seq<u8> {
        self.0@
    }
}

impl View for Signature {
    type V = Seq<u8>;

    open spec fn view(&self) -> Seq<u8> {
        self.0@
    }
}

impl View for PrivateKey {
    type V = Seq<u8>;

    open spec fn view(&self) -> Seq<u8> {
        self.0@
    }
}

/// A byte-for-byte copy.
pub fn copy_bytes(b: &Vec<u8>) -> (r: Vec<u8>)
    ensures
        r@ == b@,
{
    let mut out: Vec<u8> = Vec::new();
    let mut i: usize = 0;
    while i < b.len()
        invariant
            0 <= i <= b@.len(),
            out@ == b@.subrange(0, i as int),
        decreases b@.len() - i,
    {
        out.push(b[i]);
        i += 1;
        assert(out@ =~= b@.subrange(0, i as int));
    }
    assert(b@.subrange(0, b@.len() as int) =~= b@);
    out
}

impl PublicKey {
    pub fn copy(&self) -> (r: PublicKey)
        ensures
            r@ == self@,
    {
        PublicKey(copy_bytes(&self.0))
    }
}

impl Signature {
    pub fn copy(&self) -> (r: Signature)
        ensures
            r@ == self@,
    {
        Signature(copy_bytes(&self.0))
    }

    /// Whether `sig` signs the digest `h` (as its little-endian bytes) under `key`.
    pub open spec fn valid_for(sig: Seq<u8>, h: crate::hash::Hash, key: Seq<u8>) -> bool {
        ecdsa_accepts(key, le_bytes(h.0), sig)
    }

    /// Signs the digest of an output; `None` where the key's bytes are no valid secret.
    pub fn sign_output(output_hash: &crate::hash::Hash, private_key: &PrivateKey) -> (r: Option<Signature>)
        ensures
            match r {
                Some(s) => ecdsa_signature_of(private_key@, le_bytes(output_hash.0)) == Some(s@),
                None => ecdsa_signature_of(private_key@, le_bytes(output_hash.0)) is None,
            },
    {
        let msg = output_hash.as_bytes();
        match ecdsa_sign(private_key.0.as_slice(), msg.as_slice()) {
            Some(v) => Some(Signature(v)),
            None => None,
        }
    }

    /// Whether this signature signs `output_hash` under `public_key`.
    pub fn verify(&self, output_hash: &crate::hash::Hash, public_key: &PublicKey) -> (r: bool)
        ensures
            r == Signature::valid_for(self@, *output_hash, public_key@),
    {
        let msg = output_hash.as_bytes();
        ecdsa_verify(public_key.0.as_slice(), msg.as_slice(), self.0.as_slice())
    }
}

impl PrivateKey {
    /// A fresh random secret of 32 bytes.
    pub fn new_key() -> (r: PrivateKey)
        ensures
            r@.len() == 32,
    {
        PrivateKey(ecdsa_random_secret())
    }

    /// The matching public key; `None` where the bytes are no valid secret.
    pub fn public_key(&self) -> (r: Option<PublicKey>)
        ensures
            match r {
                Some(k) => ecdsa_public_key_of(self@) == Some(k@),
                None => ecdsa_public_key_of(self@) is None,
            },
    {
        match ecdsa_public_key(self.0.as_slice()) {
            Some(v) => Some(PublicKey(v)),
            None => None,
        }
    }
}

} // verus!
