//! Block headers with their proof-of-work search, and blocks with their
//! validation against a set of unspent outputs.

use vstd::prelude::*;
use crate::encode::{enc_u64, enc_u256, push_u64, push_u256};
use crate::error::BtcError;
use crate::merkle::MerkleRoot;
use crate::rules::ChainConfig;
use crate::crypto::Signature;
use crate::transaction::{
    Transaction, TransactionModel, InputModel, OutputModel, enc_transaction, models, output_hash,
};
use crate::uint::U256;
use crate::utxo::UtxoSet;

verus! {

/// Relies on chrono's `Utc::now`, as whole seconds since the Unix epoch.
#[verifier::external_body]
pub(crate) fn now_seconds() -> (r: i64) {
    chrono::Utc::now().timestamp()
}

/// What a header commits to; its digest is the one that proof of work is about.
#[derive(Clone, Copy, Debug, PartialEq, Eq, Structural)]
pub struct BlockHeader {
    /// Seconds since the Unix epoch.
    pub timestamp: i64,
    pub nonce: u64,
    pub prev_block_hash: crate::hash::Hash,
    pub merkle_root: MerkleRoot,
    /// The header's digest must lie below this.
    pub target: U256,
}

pub open spec fn enc_header(h: BlockHeader) -> Seq<u8> {
    enc_u64(h.timestamp as u64) + enc_u64(h.nonce) + enc_u256(h.prev_block_hash.0) + enc_u256(
        h.merkle_root.0.0,
    ) + enc_u256(h.target)
}

pub open spec fn header_hash(h: BlockHeader) -> crate::hash::Hash {
    crate::hash::Hash::of(enc_header(h))
}

/// Whether the header's digest lies below its own target.
pub open spec fn header_meets_target(h: BlockHeader) -> bool {
    header_hash(h).0.value() < h.target.value()
}

impl BlockHeader {
    pub fn new(
        timestamp: i64,
        nonce: u64,
        prev_block_hash: crate::hash::Hash,
        merkle_root: MerkleRoot,
        target: U256,
    ) -> (r: BlockHeader)
        ensures
            r == (BlockHeader { timestamp, nonce, prev_block_hash, merkle_root, target }),
    {
        BlockHeader { timestamp, nonce, prev_block_hash, merkle_root, target }
    }

    pub fn hash(&self) -> (r: crate::hash::Hash)
        ensures
            r == header_hash(*self),
    {
        let mut bytes: Vec<u8> = Vec::new();
        push_u64(&mut bytes, self.timestamp as u64);
        push_u64(&mut bytes, self.nonce);
        push_u256(&mut bytes, &self.prev_block_hash.0);
        push_u256(&mut bytes, &self.merkle_root.0.0);
        push_u256(&mut bytes, &self.target);
        assert(bytes@ =~= enc_header(*self));
        crate::hash::Hash::hash(&bytes)
    }

    /// One step of the nonce search: the next nonce, or, when the nonce is exhausted, nonce
    /// zero with the timestamp `now`.
    pub fn advance_nonce(&mut self, now: i64)
        ensures
            old(self).nonce < u64::MAX ==> *final(self) == with_nonce(
                *old(self),
                (old(self).nonce + 1) as u64,
            ),
            old(self).nonce == u64::MAX ==> *final(self) == (BlockHeader {
                nonce: 0,
                timestamp: now,
                ..*old(self)
            }),
    {
        if self.nonce < u64::MAX {
            self.nonce = self.nonce + 1;
        } else {
            self.nonce = 0;
            self.timestamp = now;
        }
    }

    /// Searches at most `steps` further nonces for a digest below the target, stopping at
    /// the first that meets it. On nonce overflow the nonce restarts at zero with a fresh
    /// timestamp. Returns whether the header, as it is left, meets its target.
    pub fn mine(&mut self, steps: usize) -> (r: bool)
        ensures
            r == header_meets_target(*final(self)),
            final(self).prev_block_hash == old(self).prev_block_hash,
            final(self).merkle_root == old(self).merkle_root,
            final(self).target == old(self).target,
            header_meets_target(*old(self)) ==> *final(self) == *old(self),
            !r ==> final(self).nonce as int == (old(self).nonce as int + steps as int)
                % 0x1_0000_0000_0000_0000int,
            exists|k: int| mined_after(*old(self), *final(self), steps as int, k, r),
    {
        if self.hash().matches_target(self.target) {
            assert(mined_after(*old(self), *self, steps as int, 0, true));
            return true;
        }
        let mut i: usize = 0;
        while i < steps
            invariant
                self.prev_block_hash == old(self).prev_block_hash,
                self.merkle_root == old(self).merkle_root,
                self.target == old(self).target,
                !header_meets_target(*self),
                !header_meets_target(*old(self)),
                i <= steps,
                self.nonce as int == (old(self).nonce as int + i as int) % 0x1_0000_0000_0000_0000int,
                old(self).nonce + i <= u64::MAX ==> *self == with_nonce(
                    *old(self),
                    (old(self).nonce + i) as u64,
                ),
                forall|j: int|
                    1 <= j <= i && old(self).nonce + j <= u64::MAX ==> !header_meets_target(
                        #[trigger] with_nonce(*old(self), (old(self).nonce + j) as u64),
                    ),
            decreases steps - i,
        {
            let now = if self.nonce == u64::MAX {
                now_seconds()
            } else {
                self.timestamp
            };
            self.advance_nonce(now);
            if self.hash().matches_target(self.target) {
                assert(mined_after(*old(self), *self, steps as int, i + 1, true));
                return true;
            }
            i += 1;
        }
        assert(mined_after(*old(self), *self, steps as int, steps as int, false));
        false
    }
}

/// The header with another nonce.
pub open spec fn with_nonce(h: BlockHeader, n: u64) -> BlockHeader {
    BlockHeader { nonce: n, ..h }
}

/// A search of at most `steps` nonces from `old` that took `k` of them and left `fin`,
/// with result `r`: the nonce advanced by `k` (wrapping), `k` is zero only where `old`
/// already met its target or no step was allowed, a failed search used every step, and
/// until the nonce wraps the timestamp is kept and every earlier nonce was tried and failed.
pub open spec fn mined_after(old: BlockHeader, fin: BlockHeader, steps: int, k: int, r: bool) -> bool {
    &&& 0 <= k <= steps
    &&& fin.nonce as int == (old.nonce as int + k) % 0x1_0000_0000_0000_0000int
    &&& k == 0 ==> (fin == old && (header_meets_target(old) || steps == 0))
    &&& !r ==> k == steps
    &&& old.nonce + k <= u64::MAX ==> fin == with_nonce(old, (old.nonce + k) as u64)
    &&& forall|j: int|
        1 <= j < k && old.nonce + j <= u64::MAX ==> !header_meets_target(
            #[trigger] with_nonce(old, (old.nonce + j) as u64),
        )
}

pub ghost struct BlockModel {
    pub header: BlockHeader,
    pub transactions: Seq<TransactionModel>,
}

/// A header and its transactions; the first transaction is the coinbase.
#[derive(Clone, Debug)]
pub struct Block {
    pub header: BlockHeader,
    pub transactions: Vec<Transaction>,
}

impl View for Block {
    type V = BlockModel;

    open spec fn view(&self) -> BlockModel {
        BlockModel { header: self.header, transactions: models(self.transactions@) }
    }
}

pub open spec fn enc_transactions(s: Seq<TransactionModel>) -> Seq<u8>
    decreases s.len(),
{
    if s.len() == 0 {
        Seq::empty()
    } else {
        enc_transactions(s.drop_last()) + enc_transaction(s.last())
    }
}

pub open spec fn enc_block(b: BlockModel) -> Seq<u8> {
    enc_header(b.header) + enc_u64(b.transactions.len() as u64) + enc_transactions(b.transactions)
}

pub open spec fn block_hash(b: BlockModel) -> crate::hash::Hash {
    crate::hash::Hash::of(enc_block(b))
}

/// The digests that a list of inputs spends.
pub open spec fn input_refs(s: Seq<InputModel>) -> Seq<crate::hash::Hash> {
    Seq::new(s.len(), |i: int| s[i].prev)
}

/// The digests of a list of outputs.
pub open spec fn output_hashes(s: Seq<OutputModel>) -> Seq<crate::hash::Hash> {
    Seq::new(s.len(), |i: int| output_hash(s[i]))
}

/// Every digest spent by the transactions, in order.
pub open spec fn refs_of(txs: Seq<TransactionModel>) -> Seq<crate::hash::Hash>
    decreases txs.len(),
{
    if txs.len() == 0 {
        Seq::empty()
    } else {
        refs_of(txs.drop_last()) + input_refs(txs.last().inputs)
    }
}

/// Every output created by the transactions, in order.
pub open spec fn outs_of(txs: Seq<TransactionModel>) -> Seq<OutputModel>
    decreases txs.len(),
{
    if txs.len() == 0 {
        Seq::empty()
    } else {
        outs_of(txs.drop_last()) + txs.last().outputs
    }
}

pub open spec fn sum_out(s: Seq<OutputModel>) -> int
    decreases s.len(),
{
    if s.len() == 0 {
        0
    } else {
        sum_out(s.drop_last()) + s.last().value
    }
}

/// What the outputs under the given digests are worth.
pub open spec fn sum_in(refs: Seq<crate::hash::Hash>, u: Map<crate::hash::Hash, (bool, OutputModel)>) -> int
    decreases refs.len(),
{
    if refs.len() == 0 {
        0
    } else {
        sum_in(refs.drop_last(), u) + u[refs.last()].1.value
    }
}

/// All transactions but the coinbase.
pub open spec fn rest_of(txs: Seq<TransactionModel>) -> Seq<TransactionModel> {
    if txs.len() == 0 {
        txs
    } else {
        txs.subrange(1, txs.len() as int)
    }
}

/// The fee that the non-coinbase transactions leave to the miner, or why there is none.
pub open spec fn fee_result(
    txs: Seq<TransactionModel>,
    u: Map<crate::hash::Hash, (bool, OutputModel)>,
) -> Result<u64, BtcError> {
    let refs = refs_of(rest_of(txs));
    let outs = outs_of(rest_of(txs));
    if exists|i: int| 0 <= i < refs.len() && !u.contains_key(#[trigger] refs[i]) {
        Err(BtcError::InvalidTransaction)
    } else if !refs.no_duplicates() {
        Err(BtcError::InvalidTransaction)
    } else if !output_hashes(outs).no_duplicates() {
        Err(BtcError::InvalidTransaction)
    } else if sum_in(refs, u) < sum_out(outs) {
        Err(BtcError::InvalidTransactionInput)
    } else if sum_in(refs, u) - sum_out(outs) > u64::MAX {
        Err(BtcError::InvalidTransaction)
    } else {
        Ok((sum_in(refs, u) - sum_out(outs)) as u64)
    }
}


/// The coinbase has no inputs, some outputs, and pays exactly the reward plus the fee.
pub open spec fn coinbase_result(
    txs: Seq<TransactionModel>,
    height: u64,
    u: Map<crate::hash::Hash, (bool, OutputModel)>,
    cfg: ChainConfig,
) -> Result<(), BtcError> {
    if txs.len() == 0 {
        Err(BtcError::InvalidTransaction)
    } else if txs[0].inputs.len() != 0 {
        Err(BtcError::InvalidTransaction)
    } else if txs[0].outputs.len() == 0 {
        Err(BtcError::InvalidTransaction)
    } else {
        match fee_result(txs, u) {
            Err(e) => Err(e),
            Ok(fee) => if sum_out(txs[0].outputs) != cfg.reward_at(height) + fee {
                Err(BtcError::InvalidTransaction)
            } else {
                Ok(())
            },
        }
    }
}

/// The input spends a known output and carries a valid signature by that output's owner.
pub open spec fn input_authorized(i: InputModel, u: Map<crate::hash::Hash, (bool, OutputModel)>) -> bool {
    u.contains_key(i.prev) && Signature::valid_for(i.signature, i.prev, u[i.prev].1.pubkey)
}

/// The whole transaction list of a block at `height`, checked against `u`.
pub open spec fn transactions_result(
    txs: Seq<TransactionModel>,
    height: u64,
    u: Map<crate::hash::Hash, (bool, OutputModel)>,
    cfg: ChainConfig,
) -> Result<(), BtcError> {
    if txs.len() == 0 {
        Err(BtcError::InvalidTransaction)
    } else if coinbase_result(txs, height, u, cfg) is Err {
        coinbase_result(txs, height, u, cfg)
    } else if exists|t: int, i: int|
        1 <= t < txs.len() && 0 <= i < txs[t].inputs.len() && !input_authorized(
            #[trigger] txs[t].inputs[i],
            u,
        ) {
        Err(BtcError::InvalidTransactionInput)
    } else if exists|t: int|
        1 <= t < txs.len() && sum_in(input_refs(#[trigger] txs[t].inputs), u) < sum_out(
            txs[t].outputs,
        ) {
        Err(BtcError::InvalidTransactionInput)
    } else {
        Ok(())
    }
}

proof fn lemma_unauthorized(
    txs: Seq<TransactionModel>,
    height: u64,
    u: Map<crate::hash::Hash, (bool, OutputModel)>,
    cfg: ChainConfig,
    t: int,
    i: int,
)
    requires
        coinbase_result(txs, height, u, cfg) is Ok,
        1 <= t < txs.len(),
        0 <= i < txs[t].inputs.len(),
        !input_authorized(txs[t].inputs[i], u),
    ensures
        transactions_result(txs, height, u, cfg) == Err::<(), BtcError>(BtcError::InvalidTransactionInput),
{
}

proof fn lemma_overspent(
    txs: Seq<TransactionModel>,
    height: u64,
    u: Map<crate::hash::Hash, (bool, OutputModel)>,
    cfg: ChainConfig,
    t: int,
)
    requires
        coinbase_result(txs, height, u, cfg) is Ok,
        1 <= t < txs.len(),
        sum_in(input_refs(txs[t].inputs), u) < sum_out(txs[t].outputs),
    ensures
        transactions_result(txs, height, u, cfg) == Err::<(), BtcError>(BtcError::InvalidTransactionInput),
{
    if exists|a: int, i: int|
        1 <= a < txs.len() && 0 <= i < txs[a].inputs.len() && !input_authorized(
            #[trigger] txs[a].inputs[i],
            u,
        ) {
    }
}

proof fn lemma_sum_in_step(refs: Seq<crate::hash::Hash>, u: Map<crate::hash::Hash, (bool, OutputModel)>, i: int)
    requires
        0 <= i < refs.len(),
    ensures
        sum_in(refs.take(i + 1), u) == sum_in(refs.take(i), u) + u[refs[i]].1.value,
{
    assert(refs.take(i + 1).drop_last() =~= refs.take(i));
}

/// What the outputs under the given digests are worth; all must be present.
pub(crate) fn sum_refs(refs: &Vec<crate::hash::Hash>, utxos: &UtxoSet) -> (r: u128)
    requires
        utxos.wf(),
        forall|k: int| 0 <= k < refs@.len() ==> utxos@.contains_key(#[trigger] refs@[k]),
    ensures
        r == sum_in(refs@, utxos@),
{
    let mut acc: u128 = 0;
    let mut i: usize = 0;
    while i < refs.len()
        invariant
            0 <= i <= refs@.len(),
            utxos.wf(),
            forall|k: int| 0 <= k < refs@.len() ==> utxos@.contains_key(#[trigger] refs@[k]),
            acc == sum_in(refs@.take(i as int), utxos@),
            acc <= i * 0xffff_ffff_ffff_ffffu128,
        decreases refs@.len() - i,
    {
        proof {
            lemma_sum_in_step(refs@, utxos@, i as int);
            assert(i * 0xffff_ffff_ffff_ffffu128 + 0xffff_ffff_ffff_ffffu128 <= u128::MAX)
                by (nonlinear_arith)
                requires i <= 0xffff_ffff_ffff_ffffu64;
        }
        match utxos.get(&refs[i]) {
            Some((_, out)) => {
                acc = acc + out.value as u128;
            },
            None => {
                assert(false);
            },
        }
        i += 1;
    }
    assert(refs@.take(i as int) =~= refs@);
    acc
}

proof fn lemma_sum_out_bound(s: Seq<OutputModel>)
    ensures
        0 <= sum_out(s) <= s.len() * 0xffff_ffff_ffff_ffff,
    decreases s.len(),
{
    if s.len() > 0 {
        lemma_sum_out_bound(s.drop_last());
    }
}

/// Whether no two entries are equal.
pub(crate) fn all_distinct(v: &Vec<crate::hash::Hash>) -> (r: bool)
    ensures
        r == v@.no_duplicates(),
{
    let mut i: usize = 0;
    while i < v.len()
        invariant
            0 <= i <= v@.len(),
            v@.take(i as int).no_duplicates(),
        decreases v@.len() - i,
    {
        let mut j: usize = 0;
        while j < i
            invariant
                0 <= j <= i < v@.len(),
                forall|k: int| 0 <= k < j ==> v@[k] != v@[i as int],
            decreases i - j,
        {
            if v[j] == v[i] {
                assert(!v@.no_duplicates()) by {
                    assert(v@[j as int] == v@[i as int]);
                }
                return false;
            }
            j += 1;
        }
        i += 1;
        assert(v@.take(i as int).no_duplicates()) by {
            assert forall|a: int, b: int|
                0 <= a < i && 0 <= b < i && a != b implies v@.take(i as int)[a] != v@.take(
                i as int,
            )[b] by {
                if a < i - 1 && b < i - 1 {
                    assert(v@.take(i - 1)[a] == v@[a] && v@.take(i - 1)[b] == v@[b]);
                }
            }
        }
    }
    assert(v@.take(i as int) =~= v@);
    true
}

impl Block {
    pub fn new(header: BlockHeader, transactions: Vec<Transaction>) -> (r: Block)
        ensures
            r.header == header,
            r.transactions == transactions,
    {
        Block { header, transactions }
    }

    pub fn hash(&self) -> (r: crate::hash::Hash)
        ensures
            r == block_hash(self@),
    {
        let mut bytes: Vec<u8> = Vec::new();
        let h = &self.header;
        push_u64(&mut bytes, h.timestamp as u64);
        push_u64(&mut bytes, h.nonce);
        push_u256(&mut bytes, &h.prev_block_hash.0);
        push_u256(&mut bytes, &h.merkle_root.0.0);
        push_u256(&mut bytes, &h.target);
        assert(bytes@ =~= enc_header(*h));
        push_u64(&mut bytes, self.transactions.len() as u64);
        let ghost mid = bytes@;
        let ghost txs = self@.transactions;
        let mut i: usize = 0;
        while i < self.transactions.len()
            invariant
                0 <= i <= self.transactions@.len(),
                txs == self@.transactions,
                bytes@ == mid + enc_transactions(txs.take(i as int)),
            decreases self.transactions@.len() - i,
        {
            self.transactions[i].encode_into(&mut bytes);
            proof {
                assert(txs.take(i + 1).drop_last() =~= txs.take(i as int));
            }
            i += 1;
        }
        assert(txs.take(i as int) =~= txs);
        assert(bytes@ =~= enc_block(self@));
        crate::hash::Hash::hash(&bytes)
    }

    /// The digests spent by all transactions but the coinbase.
    fn spent_refs(&self) -> (r: Vec<crate::hash::Hash>)
        ensures
            r@ == refs_of(rest_of(self@.transactions)),
    {
        let mut out: Vec<crate::hash::Hash> = Vec::new();
        let n = self.transactions.len();
        if n == 0 {
            return out;
        }
        let ghost m = self@.transactions;
        let mut t: usize = 1;
        while t < n
            invariant
                1 <= t <= n,
                n == m.len(),
                m == self@.transactions,
                out@ == refs_of(m.subrange(1, t as int)),
            decreases n - t,
        {
            let tx = &self.transactions[t];
            let ghost before = out@;
            let mut i: usize = 0;
            while i < tx.inputs.len()
                invariant
                    0 <= i <= tx.inputs@.len(),
                    tx@ == m[t as int],
                    out@ == before + input_refs(m[t as int].inputs.take(i as int)),
                decreases tx.inputs@.len() - i,
            {
                out.push(tx.inputs[i].pre_transaction_output_hash);
                i += 1;
                assert(out@ =~= before + input_refs(m[t as int].inputs.take(i as int)));
            }
            proof {
                assert(m[t as int].inputs.take(i as int) =~= m[t as int].inputs);
                assert(m.subrange(1, t + 1).drop_last() =~= m.subrange(1, t as int));
            }
            t += 1;
        }
        assert(m.subrange(1, n as int) =~= rest_of(m));
        out
    }

    /// The digests of, and the total value of, the outputs of all transactions but the coinbase.
    fn created_outputs(&self) -> (r: (Vec<crate::hash::Hash>, u128))
        ensures
            r.0@ == output_hashes(outs_of(rest_of(self@.transactions))),
            r.1 == sum_out(outs_of(rest_of(self@.transactions))),
    {
        let mut hashes: Vec<crate::hash::Hash> = Vec::new();
        let mut total: u128 = 0;
        let n = self.transactions.len();
        if n == 0 {
            return (hashes, total);
        }
        let ghost m = self@.transactions;
        let ghost flat: Seq<OutputModel> = Seq::empty();
        let mut t: usize = 1;
        while t < n
            invariant
                1 <= t <= n,
                n == m.len(),
                m == self@.transactions,
                flat == outs_of(m.subrange(1, t as int)),
                hashes@ == output_hashes(flat),
                total == sum_out(flat),
            decreases n - t,
        {
            let tx = &self.transactions[t];
            let ghost before = flat;
            let mut j: usize = 0;
            while j < tx.outputs.len()
                invariant
                    0 <= j <= tx.outputs@.len(),
                    tx@ == m[t as int],
                    flat == before + m[t as int].outputs.take(j as int),
                    hashes@ == output_hashes(flat),
                    total == sum_out(flat),
                decreases tx.outputs@.len() - j,
            {
                let o = &tx.outputs[j];
                let h = o.hash();
                let count = hashes.len();
                proof {
                    lemma_sum_out_bound(flat);
                    assert(total <= count * 0xffff_ffff_ffff_ffffu128);
                    assert(count * 0xffff_ffff_ffff_ffffu128 + 0xffff_ffff_ffff_ffffu128 <= u128::MAX)
                        by (nonlinear_arith)
                        requires count <= 0xffff_ffff_ffff_ffffu64;
                }
                hashes.push(h);
                total = total + o.value as u128;
                proof {
                    let nf = flat.push(o@);
                    assert(nf.drop_last() =~= flat);
                    flat = nf;
                }
                j += 1;
                assert(flat =~= before + m[t as int].outputs.take(j as int));
                assert(hashes@ =~= output_hashes(flat));
            }
            proof {
                assert(m[t as int].outputs.take(j as int) =~= m[t as int].outputs);
                assert(m.subrange(1, t + 1).drop_last() =~= m.subrange(1, t as int));
            }
            t += 1;
        }
        assert(m.subrange(1, n as int) =~= rest_of(m));
        (hashes, total)
    }

    /// The fee left to the miner: what the non-coinbase transactions spend minus what
    /// they create.
    pub fn calculate_miner_fee(&self, utxos: &UtxoSet) -> (r: Result<u64, BtcError>)
        requires
            utxos.wf(),
        ensures
            r == fee_result(self@.transactions, utxos@),
    {
        let refs = self.spent_refs();
        let mut i: usize = 0;
        while i < refs.len()
            invariant
                0 <= i <= refs@.len(),
                utxos.wf(),
                refs@ == refs_of(rest_of(self@.transactions)),
                forall|k: int| 0 <= k < i ==> utxos@.contains_key(#[trigger] refs@[k]),
            decreases refs@.len() - i,
        {
            if !utxos.contains_key(&refs[i]) {
                let ghost rs = refs_of(rest_of(self@.transactions));
                assert(!utxos@.contains_key(rs[i as int]));
                assert(exists|k: int| 0 <= k < rs.len() && !utxos@.contains_key(#[trigger] rs[k]));
                return Err(BtcError::InvalidTransaction);
            }
            i += 1;
        }
        if !all_distinct(&refs) {
            return Err(BtcError::InvalidTransaction);
        }
        let (hashes, out_total) = self.created_outputs();
        if !all_distinct(&hashes) {
            return Err(BtcError::InvalidTransaction);
        }
        let in_total = sum_refs(&refs, utxos);
        if in_total < out_total {
            return Err(BtcError::InvalidTransactionInput);
        }
        let fee = in_total - out_total;
        if fee > u64::MAX as u128 {
            return Err(BtcError::InvalidTransaction);
        }
        Ok(fee as u64)
    }

    /// Checks the coinbase: no inputs, some outputs, worth exactly the reward at
    /// `predicted_block_height` plus the miner fee.
    pub fn verify_coinbase_transaction(
        &self,
        predicted_block_height: u64,
        utxos: &UtxoSet,
        config: &ChainConfig,
    ) -> (r: Result<(), BtcError>)
        requires
            utxos.wf(),
            config.wf(),
        ensures
            r == coinbase_result(self@.transactions, predicted_block_height, utxos@, *config),
    {
        if self.transactions.len() == 0 {
            return Err(BtcError::InvalidTransaction);
        }
        let coinbase = &self.transactions[0];
        if coinbase.inputs.len() != 0 {
            return Err(BtcError::InvalidTransaction);
        }
        if coinbase.outputs.len() == 0 {
            return Err(BtcError::InvalidTransaction);
        }
        let fee = match self.calculate_miner_fee(utxos) {
            Ok(f) => f,
            Err(e) => {
                return Err(e);
            },
        };
        let reward = config.block_reward(predicted_block_height);
        let total = coinbase.output_value();
        if total != reward as u128 + fee as u128 {
            return Err(BtcError::InvalidTransaction);
        }
        Ok(())
    }

    /// Checks the whole transaction list against `utxos` for a block at `block_height`:
    /// the coinbase first, then every other input's owner signature, then that no
    /// transaction creates more than it spends. Changes nothing.
    pub fn verify_transactions(&self, block_height: u64, utxos: &UtxoSet, config: &ChainConfig) -> (r:
        Result<(), BtcError>)
        requires
            utxos.wf(),
            config.wf(),
        ensures
            r == transactions_result(self@.transactions, block_height, utxos@, *config),
    {
        if self.transactions.len() == 0 {
            return Err(BtcError::InvalidTransaction);
        }
        match self.verify_coinbase_transaction(block_height, utxos, config) {
            Ok(()) => {},
            Err(e) => {
                return Err(e);
            },
        }
        let ghost m = self@.transactions;
        let n = self.transactions.len();
        let mut t: usize = 1;
        while t < n
            invariant
                1 <= t <= n,
                n == m.len(),
                m == self@.transactions,
                utxos.wf(),
                coinbase_result(m, block_height, utxos@, *config) is Ok,
                forall|a: int, i: int|
                    1 <= a < t && 0 <= i < m[a].inputs.len() ==> input_authorized(
                        #[trigger] m[a].inputs[i],
                        utxos@,
                    ),
                forall|a: int|
                    1 <= a < t ==> !(sum_in(input_refs(#[trigger] m[a].inputs), utxos@) < sum_out(
                        m[a].outputs,
                    )),
            decreases n - t,
        {
            let tx = &self.transactions[t];
            assert(tx@ == m[t as int]);
            let ghost refs = input_refs(m[t as int].inputs);
            let mut acc: u128 = 0;
            let mut i: usize = 0;
            while i < tx.inputs.len()
                invariant
                    0 <= i <= tx.inputs@.len(),
                    tx@ == m[t as int],
                    refs == input_refs(m[t as int].inputs),
                    refs.len() == tx.inputs@.len(),
                    utxos.wf(),
                    coinbase_result(m, block_height, utxos@, *config) is Ok,
                    1 <= t < m.len(),
                    m == self@.transactions,
                    forall|k: int| 0 <= k < i ==> input_authorized(#[trigger] m[t as int].inputs[k], utxos@),
                    acc == sum_in(refs.take(i as int), utxos@),
                    acc <= i * 0xffff_ffff_ffff_ffffu128,
                decreases tx.inputs@.len() - i,
            {
                let input = &tx.inputs[i];
                assert(input@ == m[t as int].inputs[i as int]);
                match utxos.get(&input.pre_transaction_output_hash) {
                    Some((_, out)) => {
                        if !input.signature.verify(&input.pre_transaction_output_hash, &out.pubkey) {
                            proof {
                                lemma_unauthorized(m, block_height, utxos@, *config, t as int, i as int);
                            }
                            return Err(BtcError::InvalidTransactionInput);
                        }
                        proof {
                            lemma_sum_in_step(refs, utxos@, i as int);
                            assert(i * 0xffff_ffff_ffff_ffffu128 + 0xffff_ffff_ffff_ffffu128
                                <= u128::MAX) by (nonlinear_arith)
                                requires i <= 0xffff_ffff_ffff_ffffu64;
                        }
                        acc = acc + out.value as u128;
                    },
                    None => {
                        proof {
                            lemma_unauthorized(m, block_height, utxos@, *config, t as int, i as int);
                        }
                        return Err(BtcError::InvalidTransactionInput);
                    },
                }
                i += 1;
            }
            assert(refs.take(i as int) =~= refs);
            let out_total = tx.output_value();
            if acc < out_total {
                proof {
                    lemma_overspent(m, block_height, utxos@, *config, t as int);
                }
                return Err(BtcError::InvalidTransactionInput);
            }
            t += 1;
        }
        Ok(())
    }
}

} // verus!
