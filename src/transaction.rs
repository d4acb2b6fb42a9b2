//! Transactions: outputs that carry value to a key, inputs that spend them.

use vstd::prelude::*;
use crate::crypto::{PublicKey, Signature};
use crate::encode::{enc_u64, enc_u256, enc_bytes, push_u64, push_u256, push_bytes};

verus! {

pub ghost struct InputModel {
    pub prev: crate::hash::Hash,
    pub signature: Seq<u8>,
}

pub ghost struct OutputModel {
    pub value: u64,
    pub unique_id: u128,
    pub pubkey: Seq<u8>,
}

pub ghost struct TransactionModel {
    pub inputs: Seq<InputModel>,
    pub outputs: Seq<OutputModel>,
}

/// Spends an earlier output, named by its digest, with a signature over that digest.
#[derive(Clone, Debug)]
pub struct TransactionInput {
    pub pre_transaction_output_hash: crate::hash::Hash,
    pub signature: Signature,
}

/// An amount of value (in the smallest unit) owned by a public key.
#[derive(Clone, Debug)]
pub struct TransactionOutput {
    pub value: u64,
    pub unique_id: u128,
    pub pubkey: PublicKey,
}

#[derive(Clone, Debug)]
pub struct Transaction {
    pub inputs: Vec<TransactionInput>,
    pub outputs: Vec<TransactionOutput>,
}

impl View for TransactionInput {
    type V = InputModel;

    open spec fn view(&self) -> InputModel {
        InputModel { prev: self.pre_transaction_output_hash, signature: self.signature@ }
    }
}

impl View for TransactionOutput {
    type V = OutputModel;

    open spec fn view(&self) -> OutputModel {
        OutputModel { value: self.value, unique_id: self.unique_id, pubkey: self.pubkey@ }
    }
}

impl View for Transaction {
    type V = TransactionModel;

    open spec fn view(&self) -> TransactionModel {
        TransactionModel {
            inputs: self.inputs@.map_values(|i: TransactionInput| i@),
            outputs: self.outputs@.map_values(|o: TransactionOutput| o@),
        }
    }
}

pub open spec fn enc_input(i: InputModel) -> Seq<u8> {
    enc_u256(i.prev.0) + enc_bytes(i.signature)
}

pub open spec fn enc_output(o: OutputModel) -> Seq<u8> {
    enc_u64(o.value) + enc_u64((o.unique_id >> 64u128) as u64) + enc_u64(o.unique_id as u64)
        + enc_bytes(o.pubkey)
}

pub open spec fn enc_inputs(s: Seq<InputModel>) -> Seq<u8>
    decreases s.len(),
{
    if s.len() == 0 {
        Seq::empty()
    } else {
        enc_inputs(s.drop_last()) + enc_input(s.last())
    }
}

pub open spec fn enc_outputs(s: Seq<OutputModel>) -> Seq<u8>
    decreases s.len(),
{
    if s.len() == 0 {
        Seq::empty()
    } else {
        enc_outputs(s.drop_last()) + enc_output(s.last())
    }
}

pub open spec fn enc_transaction(t: TransactionModel) -> Seq<u8> {
    enc_u64(t.inputs.len() as u64) + enc_inputs(t.inputs) + enc_u64(t.outputs.len() as u64)
        + enc_outputs(t.outputs)
}

/// The identity of an output: the digest of its encoding.
pub open spec fn output_hash(o: OutputModel) -> crate::hash::Hash {
    crate::hash::Hash::of(enc_output(o))
}

/// The identity of a transaction: the digest of its encoding.
pub open spec fn transaction_hash(t: TransactionModel) -> crate::hash::Hash {
    crate::hash::Hash::of(enc_transaction(t))
}

/// The models of a list of transactions.
pub open spec fn models(txs: Seq<Transaction>) -> Seq<TransactionModel> {
    txs.map_values(|t: Transaction| t@)
}

impl TransactionInput {
    pub fn encode_into(&self, out: &mut Vec<u8>)
        ensures
            final(out)@ == old(out)@ + enc_input(self@),
    {
        let ghost start = out@;
        push_u256(out, &self.pre_transaction_output_hash.0);
        push_bytes(out, &self.signature.0);
        assert(out@ =~= start + enc_input(self@));
    }
}

impl TransactionOutput {
    pub fn encode_into(&self, out: &mut Vec<u8>)
        ensures
            final(out)@ == old(out)@ + enc_output(self@),
    {
        let ghost start = out@;
        push_u64(out, self.value);
        push_u64(out, (self.unique_id >> 64u128) as u64);
        push_u64(out, self.unique_id as u64);
        push_bytes(out, &self.pubkey.0);
        assert(out@ =~= start + enc_output(self@));
    }

    pub fn hash(&self) -> (r: crate::hash::Hash)
        ensures
            r == output_hash(self@),
    {
        let mut bytes: Vec<u8> = Vec::new();
        self.encode_into(&mut bytes);
        assert(bytes@ =~= enc_output(self@));
        crate::hash::Hash::hash(&bytes)
    }

    /// A field-for-field copy.
    pub fn copy(&self) -> (r: TransactionOutput)
        ensures
            r@ == self@,
    {
        TransactionOutput { value: self.value, unique_id: self.unique_id, pubkey: self.pubkey.copy() }
    }
}

impl Transaction {
    pub fn new(inputs: Vec<TransactionInput>, outputs: Vec<TransactionOutput>) -> (r: Transaction)
        ensures
            r.inputs == inputs,
            r.outputs == outputs,
    {
        Transaction { inputs, outputs }
    }

    pub fn encode_into(&self, out: &mut Vec<u8>)
        ensures
            final(out)@ == old(out)@ + enc_transaction(self@),
    {
        let ghost start = out@;
        push_u64(out, self.inputs.len() as u64);
        let ghost mid = out@;
        let mut i: usize = 0;
        while i < self.inputs.len()
            invariant
                0 <= i <= self.inputs@.len(),
                out@ == mid + enc_inputs(self@.inputs.take(i as int)),
            decreases self.inputs@.len() - i,
        {
            self.inputs[i].encode_into(out);
            proof {
                assert(self@.inputs.take(i + 1).drop_last() =~= self@.inputs.take(i as int));
            }
            i += 1;
        }
        assert(self@.inputs.take(i as int) =~= self@.inputs);
        push_u64(out, self.outputs.len() as u64);
        let ghost mid2 = out@;
        let mut j: usize = 0;
        while j < self.outputs.len()
            invariant
                0 <= j <= self.outputs@.len(),
                out@ == mid2 + enc_outputs(self@.outputs.take(j as int)),
            decreases self.outputs@.len() - j,
        {
            self.outputs[j].encode_into(out);
            proof {
                assert(self@.outputs.take(j + 1).drop_last() =~= self@.outputs.take(j as int));
            }
            j += 1;
        }
        assert(self@.outputs.take(j as int) =~= self@.outputs);
        assert(out@ =~= start + enc_transaction(self@));
    }

    /// The total value of the outputs.
    pub fn output_value(&self) -> (r: u128)
        ensures
            r == crate::block::sum_out(self@.outputs),
    {
        let mut acc: u128 = 0;
        let mut i: usize = 0;
        while i < self.outputs.len()
            invariant
                0 <= i <= self.outputs@.len(),
                acc == crate::block::sum_out(self@.outputs.take(i as int)),
                acc <= i * 0xffff_ffff_ffff_ffffu128,
            decreases self.outputs@.len() - i,
        {
            proof {
                assert(self@.outputs.take(i + 1).drop_last() =~= self@.outputs.take(i as int));
                assert(i * 0xffff_ffff_ffff_ffffu128 + 0xffff_ffff_ffff_ffffu128 <= u128::MAX)
                    by (nonlinear_arith)
                    requires i <= 0xffff_ffff_ffff_ffffu64;
            }
            acc = acc + self.outputs[i].value as u128;
            i += 1;
        }
        assert(self@.outputs.take(i as int) =~= self@.outputs);
        acc
    }

    pub fn hash(&self) -> (r: crate::hash::Hash)
        ensures
            r == transaction_hash(self@),
    {
        let mut bytes: Vec<u8> = Vec::new();
        self.encode_into(&mut bytes);
        assert(bytes@ =~= enc_transaction(self@));
        crate::hash::Hash::hash(&bytes)
    }
}

} // verus!
