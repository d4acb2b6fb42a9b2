//! The kinds of validation failure.

use vstd::prelude::*;

verus! {

#[derive(Clone, Copy, Debug, PartialEq, Eq, Structural)]
pub enum BtcError {
    /// Chain linkage, proof of work or timestamp order is wrong.
    InvalidBlock,
    /// The header's merkle root does not commit to the transactions.
    InvalidMerkleRoot,
    /// A malformed coinbase, a reward or fee mismatch, or an unknown or repeated reference.
    InvalidTransaction,
    /// A bad signature, a double spend, or outputs worth more than inputs.
    InvalidTransactionInput,
}

} // verus!
