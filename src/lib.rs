//! A proof-of-work ledger: digests, transactions, blocks and the chain
//! state machine that validates and applies them.

pub mod uint;
pub mod hash;
pub mod crypto;
pub mod error;
pub mod encode;
pub mod transaction;
pub mod merkle;
pub mod rules;
pub mod utxo;
pub mod block;
pub mod blockchain;
pub mod network;
