//! The ledger state machine: blocks, unspent outputs, pending transactions and
//! the current target, changed only through `add_block` and `add_to_mempool`.

use vstd::prelude::*;
use crate::block::{
    Block, BlockModel, block_hash, header_meets_target, input_refs, transactions_result, now_seconds,
    sum_in, sum_out, input_authorized,
};
use crate::error::BtcError;
use crate::merkle::{MerkleRoot, merkle_root_of};
use crate::rules::{ChainConfig, retarget, retarget_value};
use crate::transaction::{Transaction, TransactionModel, OutputModel, output_hash, transaction_hash, models};
use crate::uint::U256;
use crate::utxo::{UtxoSet, UtxoMap};

verus! {

pub ghost struct ChainModel {
    pub blocks: Seq<BlockModel>,
    pub utxos: UtxoMap,
    /// Pending transactions with their admission times, highest fee first.
    pub mempool: Seq<(i64, TransactionModel)>,
    /// The fee of each pending transaction, in the same order.
    pub fees: Seq<u64>,
    pub target: U256,
    pub config: ChainConfig,
}

pub open spec fn fees_descending(fees: Seq<u64>) -> bool {
    forall|i: int, j: int| 0 <= i < j < fees.len() ==> fees[i] >= fees[j]
}

/// The outputs spent by `refs` taken out, one after another.
pub open spec fn remove_refs(u: UtxoMap, refs: Seq<crate::hash::Hash>) -> UtxoMap
    decreases refs.len(),
{
    if refs.len() == 0 {
        u
    } else {
        remove_refs(u, refs.drop_last()).remove(refs.last())
    }
}

/// New outputs put in under their own digests, unreserved, one after another.
pub open spec fn insert_outputs(u: UtxoMap, outs: Seq<OutputModel>) -> UtxoMap
    decreases outs.len(),
{
    if outs.len() == 0 {
        u
    } else {
        insert_outputs(u, outs.drop_last()).insert(output_hash(outs.last()), (false, outs.last()))
    }
}

pub open spec fn apply_transaction(u: UtxoMap, tx: TransactionModel) -> UtxoMap {
    insert_outputs(remove_refs(u, input_refs(tx.inputs)), tx.outputs)
}

/// The effect of a block's transactions on the unspent outputs, in block order.
pub open spec fn apply_transactions(u: UtxoMap, txs: Seq<TransactionModel>) -> UtxoMap
    decreases txs.len(),
{
    if txs.len() == 0 {
        u
    } else {
        apply_transaction(apply_transactions(u, txs.drop_last()), txs.last())
    }
}

/// The digests of a block's transactions.
pub open spec fn block_tx_hashes(b: BlockModel) -> Seq<crate::hash::Hash> {
    Seq::new(b.transactions.len(), |j: int| transaction_hash(b.transactions[j]))
}

/// Whether a pending transaction stays once `b` is applied: it is not one of `b`'s.
pub open spec fn stays_after(tx: TransactionModel, b: BlockModel) -> bool {
    !block_tx_hashes(b).contains(transaction_hash(tx))
}

/// The pending transactions that stay once `b` is applied, in order.
pub open spec fn mempool_after(mp: Seq<(i64, TransactionModel)>, b: BlockModel) -> Seq<
    (i64, TransactionModel),
>
    decreases mp.len(),
{
    if mp.len() == 0 {
        mp
    } else if stays_after(mp.last().1, b) {
        mempool_after(mp.drop_last(), b).push(mp.last())
    } else {
        mempool_after(mp.drop_last(), b)
    }
}

/// The fees of the pending transactions that stay once `b` is applied.
pub open spec fn fees_after(mp: Seq<(i64, TransactionModel)>, fees: Seq<u64>, b: BlockModel) -> Seq<
    u64,
>
    decreases mp.len(),
{
    if mp.len() == 0 || fees.len() == 0 {
        Seq::empty()
    } else if stays_after(mp.last().1, b) {
        fees_after(mp.drop_last(), fees.drop_last(), b).push(fees.last())
    } else {
        fees_after(mp.drop_last(), fees.drop_last(), b)
    }
}

/// Seconds from `a` to `b`, or zero where `b` is not later.
pub open spec fn elapsed(a: i64, b: i64) -> nat {
    if b > a {
        (b - a) as nat
    } else {
        0
    }
}

/// The target after `blocks`: retargeted when their number is a positive multiple of the
/// retarget interval, from the time the last interval's blocks took.
pub open spec fn target_after(blocks: Seq<BlockModel>, target: U256, cfg: ChainConfig) -> nat {
    let n = blocks.len() as int;
    let r = cfg.retarget_interval as int;
    if n == 0 || n % r != 0 {
        target.value()
    } else {
        retarget_value(
            target.value(),
            elapsed(blocks[n - r].header.timestamp, blocks[n - 1].header.timestamp),
            (cfg.retarget_interval * cfg.ideal_block_time) as nat,
            cfg.min_target.value(),
        )
    }
}


/// The unspent outputs that a list of blocks leaves, applied in order from nothing.
pub open spec fn utxos_of_blocks(blocks: Seq<BlockModel>) -> UtxoMap
    decreases blocks.len(),
{
    if blocks.len() == 0 {
        Map::empty()
    } else {
        apply_transactions(utxos_of_blocks(blocks.drop_last()), blocks.last().transactions)
    }
}

/// The two maps hold the same outputs under the same digests; reserved flags may differ.
pub open spec fn same_outputs(a: UtxoMap, b: UtxoMap) -> bool {
    &&& a.dom() == b.dom()
    &&& forall|k: crate::hash::Hash| #[trigger] a.contains_key(k) ==> a[k].1 == b[k].1
}

proof fn lemma_remove_refs_same(a: UtxoMap, b: UtxoMap, refs: Seq<crate::hash::Hash>)
    requires
        same_outputs(a, b),
    ensures
        same_outputs(remove_refs(a, refs), remove_refs(b, refs)),
    decreases refs.len(),
{
    if refs.len() > 0 {
        lemma_remove_refs_same(a, b, refs.drop_last());
        let a1 = remove_refs(a, refs.drop_last());
        let b1 = remove_refs(b, refs.drop_last());
        assert(a1.remove(refs.last()).dom() =~= b1.remove(refs.last()).dom());
    }
}

proof fn lemma_insert_outputs_same(a: UtxoMap, b: UtxoMap, outs: Seq<OutputModel>)
    requires
        same_outputs(a, b),
    ensures
        same_outputs(insert_outputs(a, outs), insert_outputs(b, outs)),
    decreases outs.len(),
{
    if outs.len() > 0 {
        lemma_insert_outputs_same(a, b, outs.drop_last());
        let a1 = insert_outputs(a, outs.drop_last());
        let b1 = insert_outputs(b, outs.drop_last());
        let k = output_hash(outs.last());
        assert(a1.insert(k, (false, outs.last())).dom() =~= b1.insert(k, (false, outs.last())).dom());
    }
}

proof fn lemma_apply_same(a: UtxoMap, b: UtxoMap, txs: Seq<TransactionModel>)
    requires
        same_outputs(a, b),
    ensures
        same_outputs(apply_transactions(a, txs), apply_transactions(b, txs)),
    decreases txs.len(),
{
    if txs.len() > 0 {
        lemma_apply_same(a, b, txs.drop_last());
        let a1 = apply_transactions(a, txs.drop_last());
        let b1 = apply_transactions(b, txs.drop_last());
        let refs = input_refs(txs.last().inputs);
        lemma_remove_refs_same(a1, b1, refs);
        lemma_insert_outputs_same(remove_refs(a1, refs), remove_refs(b1, refs), txs.last().outputs);
    }
}

/// Whether `b` may extend the chain, or why not.
pub open spec fn block_check(c: ChainModel, b: BlockModel) -> Result<(), BtcError> {
    if c.blocks.len() == 0 {
        if b.header.prev_block_hash != crate::hash::Hash::zero_spec() {
            Err(BtcError::InvalidBlock)
        } else {
            Ok(())
        }
    } else if b.header.prev_block_hash != block_hash(c.blocks.last()) {
        Err(BtcError::InvalidBlock)
    } else if !header_meets_target(b.header) {
        Err(BtcError::InvalidBlock)
    } else if b.transactions.len() == 0 {
        Err(BtcError::InvalidTransaction)
    } else if MerkleRoot(merkle_root_of(b.transactions)) != b.header.merkle_root {
        Err(BtcError::InvalidMerkleRoot)
    } else if b.header.timestamp <= c.blocks.last().header.timestamp {
        Err(BtcError::InvalidBlock)
    } else {
        transactions_result(b.transactions, c.blocks.len() as u64, c.utxos, c.config)
    }
}

/// The chain once `b` is applied, but for the target, which `target_after` gives.
pub open spec fn after_block(c: ChainModel, b: BlockModel) -> ChainModel {
    ChainModel {
        blocks: c.blocks.push(b),
        utxos: apply_transactions(c.utxos, b.transactions),
        mempool: mempool_after(c.mempool, b),
        fees: fees_after(c.mempool, c.fees, b),
        target: c.target,
        config: c.config,
    }
}


/// The two chains agree on everything but the target.
pub open spec fn same_but_target(a: ChainModel, b: ChainModel) -> bool {
    &&& a.blocks == b.blocks
    &&& a.utxos == b.utxos
    &&& a.mempool == b.mempool
    &&& a.fees == b.fees
    &&& a.config == b.config
}

proof fn lemma_after_lengths(mp: Seq<(i64, TransactionModel)>, fees: Seq<u64>, b: BlockModel, v: u64)
    requires
        mp.len() == fees.len(),
    ensures
        fees_after(mp, fees, b).len() == mempool_after(mp, b).len(),
        mempool_after(mp, b).len() <= mp.len(),
        (forall|k: int| 0 <= k < fees.len() ==> fees[k] >= v) ==> (forall|i: int|
            0 <= i < fees_after(mp, fees, b).len() ==> fees_after(mp, fees, b)[i] >= v),
    decreases mp.len(),
{
    if mp.len() > 0 {
        lemma_after_lengths(mp.drop_last(), fees.drop_last(), b, v);
    }
}

proof fn lemma_after_sorted(mp: Seq<(i64, TransactionModel)>, fees: Seq<u64>, b: BlockModel)
    requires
        mp.len() == fees.len(),
        fees_descending(fees),
    ensures
        fees_descending(fees_after(mp, fees, b)),
    decreases mp.len(),
{
    if mp.len() > 0 {
        lemma_after_sorted(mp.drop_last(), fees.drop_last(), b);
        lemma_after_lengths(mp.drop_last(), fees.drop_last(), b, fees.last());
    }
}

fn contains_hash(v: &Vec<crate::hash::Hash>, h: &crate::hash::Hash) -> (r: bool)
    ensures
        r == v@.contains(*h),
{
    let mut i: usize = 0;
    while i < v.len()
        invariant
            0 <= i <= v@.len(),
            forall|k: int| 0 <= k < i ==> v@[k] != *h,
        decreases v@.len() - i,
    {
        if v[i] == *h {
            return true;
        }
        i += 1;
    }
    false
}

fn block_tx_hashes_exec(b: &Block) -> (r: Vec<crate::hash::Hash>)
    ensures
        r@ == block_tx_hashes(b@),
{
    let mut out: Vec<crate::hash::Hash> = Vec::new();
    let mut j: usize = 0;
    while j < b.transactions.len()
        invariant
            0 <= j <= b.transactions@.len(),
            out@ == block_tx_hashes(b@).take(j as int),
        decreases b.transactions@.len() - j,
    {
        let h = b.transactions[j].hash();
        out.push(h);
        j += 1;
        assert(out@ =~= block_tx_hashes(b@).take(j as int));
    }
    assert(out@ =~= block_tx_hashes(b@));
    out
}

/// Applies the transactions' effects to the index, in order.
fn apply_transactions_exec(utxos: &mut UtxoSet, txs: &Vec<Transaction>)
    requires
        old(utxos).wf(),
    ensures
        final(utxos).wf(),
        final(utxos)@ == apply_transactions(old(utxos)@, models(txs@)),
{
    let ghost m = models(txs@);
    let ghost u0 = utxos@;
    let mut t: usize = 0;
    while t < txs.len()
        invariant
            0 <= t <= txs@.len(),
            m == models(txs@),
            utxos.wf(),
            utxos@ == apply_transactions(u0, m.take(t as int)),
        decreases txs@.len() - t,
    {
        let tx = &txs[t];
        assert(tx@ == m[t as int]);
        let ghost refs = input_refs(m[t as int].inputs);
        let ghost u1 = utxos@;
        let mut i: usize = 0;
        while i < tx.inputs.len()
            invariant
                0 <= i <= tx.inputs@.len(),
                tx@ == m[t as int],
                refs == input_refs(m[t as int].inputs),
                utxos.wf(),
                utxos@ == remove_refs(u1, refs.take(i as int)),
            decreases tx.inputs@.len() - i,
        {
            utxos.remove(&tx.inputs[i].pre_transaction_output_hash);
            proof {
                assert(refs.take(i + 1).drop_last() =~= refs.take(i as int));
            }
            i += 1;
        }
        assert(refs.take(i as int) =~= refs);
        let ghost u2 = utxos@;
        let mut j: usize = 0;
        while j < tx.outputs.len()
            invariant
                0 <= j <= tx.outputs@.len(),
                tx@ == m[t as int],
                utxos.wf(),
                utxos@ == insert_outputs(u2, m[t as int].outputs.take(j as int)),
            decreases tx.outputs@.len() - j,
        {
            let h = tx.outputs[j].hash();
            utxos.insert(h, false, tx.outputs[j].copy());
            proof {
                assert(m[t as int].outputs.take(j + 1).drop_last() =~= m[t as int].outputs.take(j as int));
            }
            j += 1;
        }
        assert(m[t as int].outputs.take(j as int) =~= m[t as int].outputs);
        assert(m.take(t + 1).drop_last() =~= m.take(t as int));
        t += 1;
    }
    assert(m.take(t as int) =~= m);
}


/// Whether a pending transaction is admissible against `u`, and its fee if so: every input
/// names a known output, none twice, each carries a valid signature by that output's owner,
/// and the outputs are worth no more than the inputs.
pub open spec fn mempool_check(u: UtxoMap, tx: TransactionModel) -> Result<u64, BtcError> {
    let refs = input_refs(tx.inputs);
    if exists|i: int| 0 <= i < refs.len() && !u.contains_key(#[trigger] refs[i]) {
        Err(BtcError::InvalidTransaction)
    } else if !refs.no_duplicates() {
        Err(BtcError::InvalidTransaction)
    } else if exists|i: int|
        0 <= i < tx.inputs.len() && !input_authorized(#[trigger] tx.inputs[i], u) {
        Err(BtcError::InvalidTransactionInput)
    } else if sum_in(refs, u) < sum_out(tx.outputs) {
        Err(BtcError::InvalidTransaction)
    } else if sum_in(refs, u) - sum_out(tx.outputs) > u64::MAX {
        Err(BtcError::InvalidTransaction)
    } else {
        Ok((sum_in(refs, u) - sum_out(tx.outputs)) as u64)
    }
}

/// Whether one of the transaction's outputs has digest `h`.
pub open spec fn produces(tx: TransactionModel, h: crate::hash::Hash) -> bool {
    exists|o: int| 0 <= o < tx.outputs.len() && output_hash(#[trigger] tx.outputs[o]) == h
}

/// The first pending transaction that produces `h`.
pub open spec fn producer(mp: Seq<(i64, TransactionModel)>, h: crate::hash::Hash) -> Option<int>
    decreases mp.len(),
{
    if mp.len() == 0 {
        None
    } else {
        match producer(mp.drop_last(), h) {
            Some(k) => Some(k),
            None => if produces(mp.last().1, h) {
                Some(mp.len() - 1)
            } else {
                None
            },
        }
    }
}

/// The entry under `k`, if any, with its reserved flag set to `flag`.
pub open spec fn mark(u: UtxoMap, k: crate::hash::Hash, flag: bool) -> UtxoMap {
    if u.contains_key(k) {
        u.insert(k, (flag, u[k].1))
    } else {
        u
    }
}

pub open spec fn mark_all(u: UtxoMap, refs: Seq<crate::hash::Hash>, flag: bool) -> UtxoMap
    decreases refs.len(),
{
    if refs.len() == 0 {
        u
    } else {
        mark(mark_all(u, refs.drop_last(), flag), refs.last(), flag)
    }
}

/// The pool state that eviction works on: index, pending transactions, their fees.
pub type PoolState = (UtxoMap, Seq<(i64, TransactionModel)>, Seq<u64>);

/// A new claim on `h`: where `h` is reserved, the pending transaction producing it (the first
/// one) leaves and its inputs are released; with no such producer, `h` itself is released.
pub open spec fn evict_one(st: PoolState, h: crate::hash::Hash) -> PoolState {
    if st.0.contains_key(h) && st.0[h].0 {
        match producer(st.1, h) {
            Some(k) => (
                mark_all(st.0, input_refs(st.1[k].1.inputs), false),
                st.1.remove(k),
                st.2.remove(k),
            ),
            None => (mark(st.0, h, false), st.1, st.2),
        }
    } else {
        st
    }
}

pub open spec fn evict_all(st: PoolState, refs: Seq<crate::hash::Hash>) -> PoolState
    decreases refs.len(),
{
    if refs.len() == 0 {
        st
    } else {
        evict_one(evict_all(st, refs.drop_last()), refs.last())
    }
}

/// `c2` is `c` with `tx` admitted at fee `fee`: conflicting claims evicted, the inputs
/// reserved, and the transaction placed after every pending one of at least its fee and
/// before every one of less.
pub open spec fn admitted(c: ChainModel, tx: TransactionModel, fee: u64, c2: ChainModel) -> bool {
    let refs = input_refs(tx.inputs);
    let st = evict_all((c.utxos, c.mempool, c.fees), refs);
    &&& c2.blocks == c.blocks
    &&& c2.target == c.target
    &&& c2.config == c.config
    &&& c2.utxos == mark_all(st.0, refs, true)
    &&& exists|p: int, now: i64|
        0 <= p <= st.2.len() && (forall|j: int| 0 <= j < p ==> st.2[j] >= fee) && (p < st.2.len()
            ==> st.2[p] < fee) && c2.mempool == st.1.insert(p, (now, tx)) && c2.fees == st.2.insert(
            p,
            fee,
        )
}

proof fn lemma_mark_all_keys(u: UtxoMap, refs: Seq<crate::hash::Hash>, flag: bool)
    ensures
        mark_all(u, refs, flag).dom() == u.dom(),
        forall|k: crate::hash::Hash| #[trigger] u.contains_key(k) ==> mark_all(u, refs, flag)[k].1 == u[k].1,
    decreases refs.len(),
{
    if refs.len() > 0 {
        lemma_mark_all_keys(u, refs.drop_last(), flag);
        let v = mark_all(u, refs.drop_last(), flag);
        assert(mark(v, refs.last(), flag).dom() =~= v.dom());
    }
}

proof fn lemma_evict_all(st: PoolState, refs: Seq<crate::hash::Hash>)
    requires
        st.1.len() == st.2.len(),
        fees_descending(st.2),
    ensures
        evict_all(st, refs).1.len() == evict_all(st, refs).2.len(),
        fees_descending(evict_all(st, refs).2),
        evict_all(st, refs).0.dom() == st.0.dom(),
        forall|k: crate::hash::Hash| #[trigger] st.0.contains_key(k) ==> evict_all(st, refs).0[k].1 == st.0[k].1,
    decreases refs.len(),
{
    if refs.len() > 0 {
        lemma_evict_all(st, refs.drop_last());
        let s1 = evict_all(st, refs.drop_last());
        let h = refs.last();
        if s1.0.contains_key(h) && s1.0[h].0 {
            match producer(s1.1, h) {
                Some(k) => {
                    lemma_producer_range(s1.1, h);
                    lemma_mark_all_keys(s1.0, input_refs(s1.1[k].1.inputs), false);
                    let f = s1.2.remove(k);
                    assert forall|i: int, j: int| 0 <= i < j < f.len() implies f[i] >= f[j] by {
                        let a = if i < k { i } else { i + 1 };
                        let b = if j < k { j } else { j + 1 };
                        assert(f[i] == s1.2[a] && f[j] == s1.2[b]);
                    }
                },
                None => {
                    assert(mark(s1.0, h, false).dom() =~= s1.0.dom());
                },
            }
        }
    }
}

proof fn lemma_producer_range(mp: Seq<(i64, TransactionModel)>, h: crate::hash::Hash)
    ensures
        producer(mp, h) matches Some(k) ==> 0 <= k < mp.len() && produces(mp[k].1, h),
        producer(mp, h) is None ==> forall|k: int| 0 <= k < mp.len() ==> !produces(#[trigger] mp[k].1, h),
    decreases mp.len(),
{
    if mp.len() > 0 {
        lemma_producer_range(mp.drop_last(), h);
        assert forall|k: int| 0 <= k < mp.len() - 1 implies mp.drop_last()[k] == mp[k] by {}
    }
}

/// The first producer of `h` within the first `j` entries, when there is one, is the first
/// of all.
proof fn lemma_producer_prefix(mp: Seq<(i64, TransactionModel)>, h: crate::hash::Hash, j: int)
    requires
        0 <= j <= mp.len(),
        producer(mp.take(j), h) is Some,
    ensures
        producer(mp, h) == producer(mp.take(j), h),
    decreases mp.len() - j,
{
    if j < mp.len() {
        assert(mp.take(j + 1).drop_last() =~= mp.take(j));
        lemma_producer_prefix(mp, h, j + 1);
    } else {
        assert(mp.take(j) =~= mp);
    }
}


proof fn lemma_insert_sorted(f: Seq<u64>, p: int, fee: u64)
    requires
        fees_descending(f),
        0 <= p <= f.len(),
        forall|j: int| 0 <= j < p ==> f[j] >= fee,
        p < f.len() ==> f[p] < fee,
    ensures
        fees_descending(f.insert(p, fee)),
{
    let g = f.insert(p, fee);
    assert forall|i: int, j: int| 0 <= i < j < g.len() implies g[i] >= g[j] by {
        if j < p {
        } else if j == p {
        } else if i < p {
            assert(g[j] == f[j - 1]);
        } else if i == p {
            assert(g[j] == f[j - 1]);
            assert(f[p] >= f[j - 1] || j - 1 == p);
        } else {
            assert(g[i] == f[i - 1] && g[j] == f[j - 1]);
        }
    }
}

/// The digests that the transaction's inputs spend.
fn tx_refs(tx: &Transaction) -> (r: Vec<crate::hash::Hash>)
    ensures
        r@ == input_refs(tx@.inputs),
{
    let mut out: Vec<crate::hash::Hash> = Vec::new();
    let mut i: usize = 0;
    while i < tx.inputs.len()
        invariant
            0 <= i <= tx.inputs@.len(),
            out@ == input_refs(tx@.inputs).take(i as int),
        decreases tx.inputs@.len() - i,
    {
        out.push(tx.inputs[i].pre_transaction_output_hash);
        i += 1;
        assert(out@ =~= input_refs(tx@.inputs).take(i as int));
    }
    assert(out@ =~= input_refs(tx@.inputs));
    out
}

fn produces_exec(tx: &Transaction, h: &crate::hash::Hash) -> (r: bool)
    ensures
        r == produces(tx@, *h),
{
    let mut o: usize = 0;
    while o < tx.outputs.len()
        invariant
            0 <= o <= tx.outputs@.len(),
            forall|q: int| 0 <= q < o ==> output_hash(#[trigger] tx@.outputs[q]) != *h,
        decreases tx.outputs@.len() - o,
    {
        if tx.outputs[o].hash() == *h {
            assert(output_hash(tx@.outputs[o as int]) == *h);
            return true;
        }
        o += 1;
    }
    false
}

/// Sets the reserved flag of every present entry named in `refs`.
fn mark_all_exec(utxos: &mut UtxoSet, refs: &Vec<crate::hash::Hash>, flag: bool)
    requires
        old(utxos).wf(),
    ensures
        final(utxos).wf(),
        final(utxos)@ == mark_all(old(utxos)@, refs@, flag),
{
    let ghost u0 = utxos@;
    let mut j: usize = 0;
    while j < refs.len()
        invariant
            0 <= j <= refs@.len(),
            utxos.wf(),
            utxos@ == mark_all(u0, refs@.take(j as int), flag),
        decreases refs@.len() - j,
    {
        utxos.set_reserved(&refs[j], flag);
        proof {
            assert(refs@.take(j + 1).drop_last() =~= refs@.take(j as int));
        }
        j += 1;
    }
    assert(refs@.take(j as int) =~= refs@);
}


/// Genesis: an empty chain accepts a block exactly when its previous-block digest is zero,
/// whatever its proof of work or merkle root, and once one is accepted the chain is no
/// longer empty.
pub proof fn lemma_genesis_rule(c: ChainModel, b: BlockModel)
    requires
        c.blocks.len() == 0,
    ensures
        (block_check(c, b) is Ok) == (b.header.prev_block_hash == crate::hash::Hash::zero_spec()),
        block_check(c, b) is Err ==> block_check(c, b) == Err::<(), BtcError>(BtcError::InvalidBlock),
        after_block(c, b).blocks.len() == 1,
{
}

proof fn lemma_remove_refs_absent(u: UtxoMap, refs: Seq<crate::hash::Hash>, h: crate::hash::Hash)
    requires
        refs.contains(h) || !u.contains_key(h),
    ensures
        !remove_refs(u, refs).contains_key(h),
    decreases refs.len(),
{
    if refs.len() > 0 {
        if refs.last() != h {
            if refs.contains(h) {
                let k = choose|k: int| 0 <= k < refs.len() && refs[k] == h;
                assert(refs.drop_last()[k] == h);
            }
            lemma_remove_refs_absent(u, refs.drop_last(), h);
        }
    }
}

proof fn lemma_insert_outputs_other(u: UtxoMap, outs: Seq<OutputModel>, h: crate::hash::Hash)
    requires
        forall|o: int| 0 <= o < outs.len() ==> output_hash(#[trigger] outs[o]) != h,
    ensures
        insert_outputs(u, outs).contains_key(h) == u.contains_key(h),
    decreases outs.len(),
{
    if outs.len() > 0 {
        lemma_insert_outputs_other(u, outs.drop_last(), h);
    }
}

/// Whether some transaction of the list spends `h`.
pub open spec fn spends(txs: Seq<TransactionModel>, h: crate::hash::Hash) -> bool {
    exists|t: int, i: int| 0 <= t < txs.len() && 0 <= i < txs[t].inputs.len() && (
    #[trigger] txs[t].inputs[i]).prev == h
}

/// Whether some transaction of the list creates an output with digest `h`.
pub open spec fn creates(txs: Seq<TransactionModel>, h: crate::hash::Hash) -> bool {
    exists|t: int, o: int| 0 <= t < txs.len() && 0 <= o < txs[t].outputs.len() && output_hash(
        #[trigger] txs[t].outputs[o],
    ) == h
}

proof fn lemma_apply_absent(u: UtxoMap, txs: Seq<TransactionModel>, h: crate::hash::Hash)
    requires
        !creates(txs, h),
        spends(txs, h) || !u.contains_key(h),
    ensures
        !apply_transactions(u, txs).contains_key(h),
    decreases txs.len(),
{
    if txs.len() > 0 {
        let last = txs.last();
        let n = txs.len() - 1;
        assert forall|o: int| 0 <= o < last.outputs.len() implies output_hash(
            #[trigger] last.outputs[o],
        ) != h by {
            assert(txs[n].outputs[o] == last.outputs[o]);
        }
        assert(!creates(txs.drop_last(), h)) by {
            if creates(txs.drop_last(), h) {
                let (t, o) = choose|t: int, o: int|
                    0 <= t < txs.drop_last().len() && 0 <= o < txs.drop_last()[t].outputs.len()
                        && output_hash(#[trigger] txs.drop_last()[t].outputs[o]) == h;
                assert(txs[t].outputs[o] == txs.drop_last()[t].outputs[o]);
            }
        }
        let spent_in_last = exists|i: int|
            0 <= i < last.inputs.len() && (#[trigger] last.inputs[i]).prev == h;
        let u1 = apply_transactions(u, txs.drop_last());
        if spent_in_last {
            let i = choose|i: int| 0 <= i < last.inputs.len() && (#[trigger] last.inputs[i]).prev == h;
            assert(input_refs(last.inputs)[i] == h);
            lemma_remove_refs_absent(u1, input_refs(last.inputs), h);
        } else {
            if spends(txs, h) {
                let (t, i) = choose|t: int, i: int|
                    0 <= t < txs.len() && 0 <= i < txs[t].inputs.len() && (
                    #[trigger] txs[t].inputs[i]).prev == h;
                if t == n {
                    assert(last.inputs[i].prev == h);
                }
                assert(txs.drop_last()[t].inputs[i] == txs[t].inputs[i]);
            }
            lemma_apply_absent(u, txs.drop_last(), h);
            lemma_remove_refs_absent(u1, input_refs(last.inputs), h);
        }
        lemma_insert_outputs_other(remove_refs(u1, input_refs(last.inputs)), last.outputs, h);
    }
}

/// No double spend: once an applied block spends the output `h` (and creates no output of
/// that digest again), a later block whose non-coinbase transaction spends `h`, or a pending
/// transaction that spends `h`, is rejected.
pub proof fn lemma_no_double_spend(
    c: ChainModel,
    b: BlockModel,
    h: crate::hash::Hash,
    b2: BlockModel,
    tx: TransactionModel,
)
    requires
        block_check(c, b) is Ok,
        spends(b.transactions, h),
        !creates(b.transactions, h),
    ensures
        !after_block(c, b).utxos.contains_key(h),
        spends(rest_of_block(b2), h) ==> block_check(after_block(c, b), b2) is Err,
        (exists|i: int| 0 <= i < tx.inputs.len() && (#[trigger] tx.inputs[i]).prev == h)
            ==> mempool_check(after_block(c, b).utxos, tx) is Err,
{
    let c2 = after_block(c, b);
    lemma_apply_absent(c.utxos, b.transactions, h);
    if spends(rest_of_block(b2), h) {
        let txs = b2.transactions;
        let (t, i) = choose|t: int, i: int|
            0 <= t < rest_of_block(b2).len() && 0 <= i < rest_of_block(b2)[t].inputs.len() && (
            #[trigger] rest_of_block(b2)[t].inputs[i]).prev == h;
        assert(rest_of_block(b2)[t] == txs[t + 1]);
        assert(!input_authorized(txs[t + 1].inputs[i], c2.utxos));
    }
    if exists|i: int| 0 <= i < tx.inputs.len() && (#[trigger] tx.inputs[i]).prev == h {
        let i = choose|i: int| 0 <= i < tx.inputs.len() && (#[trigger] tx.inputs[i]).prev == h;
        assert(input_refs(tx.inputs)[i] == h);
    }
}


/// Once any block of the chain spends `h`, and no block from that one on creates an output
/// of that digest again, the outputs that the blocks leave do not hold `h`.
pub proof fn lemma_spent_in_chain_absent(blocks: Seq<BlockModel>, i: int, h: crate::hash::Hash)
    requires
        0 <= i < blocks.len(),
        spends(blocks[i].transactions, h),
        forall|j: int| i <= j < blocks.len() ==> !creates(#[trigger] blocks[j].transactions, h),
    ensures
        !utxos_of_blocks(blocks).contains_key(h),
    decreases blocks.len(),
{
    let n = blocks.len() - 1;
    assert(!creates(blocks[n].transactions, h));
    if i == n {
        lemma_apply_absent(utxos_of_blocks(blocks.drop_last()), blocks.last().transactions, h);
    } else {
        assert forall|j: int| i <= j < blocks.drop_last().len() implies !creates(
            #[trigger] blocks.drop_last()[j].transactions,
            h,
        ) by {
            assert(blocks.drop_last()[j] == blocks[j]);
        }
        lemma_spent_in_chain_absent(blocks.drop_last(), i, h);
        lemma_apply_absent(utxos_of_blocks(blocks.drop_last()), blocks.last().transactions, h);
    }
}

/// No double spend, across the whole chain: once a block of a well-formed chain spends `h`
/// (and no block from that one on creates it again), every further block whose
/// non-coinbase transaction spends `h`, and every pending transaction that spends `h`, is
/// rejected.
pub proof fn lemma_no_double_spend_in_chain(
    c: ChainModel,
    i: int,
    h: crate::hash::Hash,
    b2: BlockModel,
    tx: TransactionModel,
)
    requires
        c.wf(),
        0 <= i < c.blocks.len(),
        spends(c.blocks[i].transactions, h),
        forall|j: int| i <= j < c.blocks.len() ==> !creates(#[trigger] c.blocks[j].transactions, h),
    ensures
        !c.utxos.contains_key(h),
        spends(rest_of_block(b2), h) ==> block_check(c, b2) is Err,
        (exists|k: int| 0 <= k < tx.inputs.len() && (#[trigger] tx.inputs[k]).prev == h)
            ==> mempool_check(c.utxos, tx) is Err,
{
    lemma_spent_in_chain_absent(c.blocks, i, h);
    assert(!utxos_of_blocks(c.blocks).contains_key(h));
    assert(!c.utxos.dom().contains(h));
    if spends(rest_of_block(b2), h) {
        let txs = b2.transactions;
        let (t, k) = choose|t: int, k: int|
            0 <= t < rest_of_block(b2).len() && 0 <= k < rest_of_block(b2)[t].inputs.len() && (
            #[trigger] rest_of_block(b2)[t].inputs[k]).prev == h;
        assert(rest_of_block(b2)[t] == txs[t + 1]);
        assert(!input_authorized(txs[t + 1].inputs[k], c.utxos));
    }
    if exists|k: int| 0 <= k < tx.inputs.len() && (#[trigger] tx.inputs[k]).prev == h {
        let k = choose|k: int| 0 <= k < tx.inputs.len() && (#[trigger] tx.inputs[k]).prev == h;
        assert(input_refs(tx.inputs)[k] == h);
    }
}

/// A block's transactions but its coinbase.
pub open spec fn rest_of_block(b: BlockModel) -> Seq<TransactionModel> {
    crate::block::rest_of(b.transactions)
}

/// The mempool is ordered by fee, highest first, in every well-formed state; `add_block` and
/// `add_to_mempool` keep states well-formed.
pub proof fn lemma_mempool_by_fee(c: ChainModel)
    requires
        c.wf(),
    ensures
        forall|i: int, j: int| 0 <= i < j < c.fees.len() ==> c.fees[i] >= c.fees[j],
        c.fees.len() == c.mempool.len(),
{
}

/// The ledger: the only owner of the consensus state.
#[derive(Clone, Debug)]
pub struct Blockchain {
    utxos: UtxoSet,
    blocks: Vec<Block>,
    target: U256,
    mempool: Vec<(i64, Transaction)>,
    fees: Vec<u64>,
    config: ChainConfig,
}

pub open spec fn mempool_models(mp: Seq<(i64, Transaction)>) -> Seq<(i64, TransactionModel)> {
    mp.map_values(|e: (i64, Transaction)| (e.0, e.1@))
}

impl View for Blockchain {
    type V = ChainModel;

    closed spec fn view(&self) -> ChainModel {
        ChainModel {
            blocks: self.blocks@.map_values(|b: Block| b@),
            utxos: self.utxos@,
            mempool: mempool_models(self.mempool@),
            fees: self.fees@,
            target: self.target,
            config: self.config,
        }
    }
}

impl ChainModel {
    pub open spec fn wf(self) -> bool {
        &&& self.config.wf()
        &&& self.fees.len() == self.mempool.len()
        &&& fees_descending(self.fees)
        &&& self.target.value() <= self.config.min_target.value()
        &&& same_outputs(self.utxos, utxos_of_blocks(self.blocks))
    }
}

impl Blockchain {
    pub closed spec fn wf(&self) -> bool {
        &&& self@.wf()
        &&& self.utxos.wf()
    }

    /// A well-formed chain has a well-formed model: a valid configuration, one recorded fee
    /// per pending transaction in descending order, a target at or below the easiest one,
    /// and the outputs that replaying its blocks leaves.
    pub proof fn lemma_wf_model(&self)
        requires
            self.wf(),
        ensures
            self@.wf(),
    {
    }

    /// An empty chain under the standard parameters.
    pub fn new() -> (r: Blockchain)
        ensures
            r.wf(),
            r@.blocks.len() == 0,
            r@.utxos == UtxoMap::empty(),
            r@.mempool.len() == 0,
            r@.config == ChainConfig::standard_spec(),
            r@.target == r@.config.min_target,
    {
        Self::with_config(ChainConfig::standard())
    }

    /// An empty chain under `config`, starting at its easiest target.
    pub fn with_config(config: ChainConfig) -> (r: Blockchain)
        requires
            config.wf(),
        ensures
            r.wf(),
            r@.blocks.len() == 0,
            r@.utxos == UtxoMap::empty(),
            r@.mempool.len() == 0,
            r@.config == config,
            r@.target == config.min_target,
    {
        let r = Blockchain {
            utxos: UtxoSet::new(),
            blocks: Vec::new(),
            target: config.min_target,
            mempool: Vec::new(),
            fees: Vec::new(),
            config,
        };
        assert(r@.blocks =~= Seq::<BlockModel>::empty());
        assert(r@.mempool =~= Seq::<(i64, TransactionModel)>::empty());
        r
    }

    pub fn utxos(&self) -> (r: &UtxoSet)
        requires
            self.wf(),
        ensures
            r@ == self@.utxos,
            r.wf(),
    {
        &self.utxos
    }

    pub fn blocks(&self) -> (r: &Vec<Block>)
        ensures
            r@.map_values(|b: Block| b@) == self@.blocks,
    {
        &self.blocks
    }

    pub fn target(&self) -> (r: U256)
        ensures
            r == self@.target,
    {
        self.target
    }

    pub fn config(&self) -> (r: ChainConfig)
        ensures
            r == self@.config,
    {
        self.config
    }

    /// Pending transactions with their admission times, highest fee first.
    pub fn mempool(&self) -> (r: &Vec<(i64, Transaction)>)
        ensures
            mempool_models(r@) == self@.mempool,
    {
        &self.mempool
    }

    /// The fee of each pending transaction, in mempool order.
    pub fn mempool_fees(&self) -> (r: &Vec<u64>)
        ensures
            r@ == self@.fees,
    {
        &self.fees
    }

    pub fn block_height(&self) -> (r: u64)
        ensures
            r == self@.blocks.len(),
    {
        self.blocks.len() as u64
    }

    /// Retargets when the number of blocks is a positive multiple of the retarget interval:
    /// the target is scaled by measured over intended time for the last interval, kept
    /// within a factor of four of the old target and at or below the easiest target.
    pub fn try_adjust_target(&mut self)
        requires
            old(self).wf(),
        ensures
            final(self).wf(),
            same_but_target(final(self)@, old(self)@),
            final(self)@.target.value() == target_after(old(self)@.blocks, old(self)@.target, old(self)@.config),
    {
        let n = self.blocks.len();
        let r = self.config.retarget_interval;
        if n == 0 || (n as u64) % r != 0 {
            return;
        }
        proof {
            assert(n >= r) by (nonlinear_arith)
                requires n > 0, (n as int) % (r as int) == 0, r > 0;
        }
        let first = self.blocks[(n as u64 - r) as usize].header.timestamp;
        let last = self.blocks[n - 1].header.timestamp;
        let actual: u64 = if last > first {
            (last as i128 - first as i128) as u64
        } else {
            0
        };
        proof {
            assert(r * self.config.ideal_block_time > 0) by (nonlinear_arith)
                requires r > 0, self.config.ideal_block_time > 0;
        }
        let ideal = r * self.config.ideal_block_time;
        let old_target = self.target;
        self.target = retarget(&old_target, actual, ideal, &self.config.min_target);
        proof {
            crate::rules::lemma_retarget_clamped(
                old_target.value(),
                actual as nat,
                ideal as nat,
                self.config.min_target.value(),
            );
        }
    }

    /// Removes from the mempool every transaction whose digest is in `hashes`.
    fn drop_settled(&mut self, hashes: &Vec<crate::hash::Hash>, Ghost(b): Ghost<BlockModel>)
        requires
            old(self).wf(),
            hashes@ == block_tx_hashes(b),
        ensures
            final(self).wf(),
            final(self)@ == (ChainModel {
                mempool: mempool_after(old(self)@.mempool, b),
                fees: fees_after(old(self)@.mempool, old(self)@.fees, b),
                ..old(self)@
            }),
    {
        let ghost mp0 = old(self)@.mempool;
        let ghost f0 = old(self)@.fees;
        let n = self.mempool.len();
        let mut k: usize = 0;
        let mut i: usize = 0;
        proof {
            lemma_after_lengths(mp0.take(0), f0.take(0), b, 0);
            assert(mp0.take(0) =~= Seq::<(i64, TransactionModel)>::empty());
            assert(f0.take(0) =~= Seq::<u64>::empty());
            assert(mp0.subrange(0, n as int) =~= mp0);
            assert(f0.subrange(0, n as int) =~= f0);
        }
        while k < n
            invariant
                0 <= k <= n,
                i <= k,
                n == mp0.len(),
                mp0.len() == f0.len(),
                self.utxos.wf(),
                self.utxos@ == old(self)@.utxos,
                self.blocks == old(self).blocks,
                self.target == old(self).target,
                self.config == old(self).config,
                hashes@ == block_tx_hashes(b),
                i == mempool_after(mp0.take(k as int), b).len(),
                fees_after(mp0.take(k as int), f0.take(k as int), b).len() == i,
                mempool_models(self.mempool@) == mempool_after(mp0.take(k as int), b) + mp0.subrange(
                    k as int,
                    n as int,
                ),
                self.fees@ == fees_after(mp0.take(k as int), f0.take(k as int), b) + f0.subrange(
                    k as int,
                    n as int,
                ),
            decreases n - k,
        {
            let ghost cur = mempool_models(self.mempool@);
            assert(cur.len() == self.mempool@.len());
            assert(cur[i as int] == mp0[k as int]);
            assert(self.fees@.len() == cur.len());
            let h = self.mempool[i].1.hash();
            let ghost kept = mempool_after(mp0.take(k as int), b);
            let ghost kf = fees_after(mp0.take(k as int), f0.take(k as int), b);
            proof {
                assert(mp0.take(k + 1).drop_last() =~= mp0.take(k as int));
                assert(f0.take(k + 1).drop_last() =~= f0.take(k as int));
                lemma_after_lengths(mp0.take(k + 1), f0.take(k + 1), b, 0);
                lemma_after_lengths(mp0.take(k as int), f0.take(k as int), b, 0);
            }
            if contains_hash(hashes, &h) {
                self.mempool.remove(i);
                self.fees.remove(i);
                proof {
                    assert(mempool_models(self.mempool@) =~= cur.remove(i as int));
                    assert(cur.remove(i as int) =~= kept + mp0.subrange(k + 1, n as int));
                    assert(self.fees@ =~= kf + f0.subrange(k + 1, n as int));
                }
            } else {
                i += 1;
                proof {
                    assert(mempool_models(self.mempool@) =~= kept.push(mp0[k as int]) + mp0.subrange(
                        k + 1,
                        n as int,
                    ));
                    assert(self.fees@ =~= kf.push(f0[k as int]) + f0.subrange(k + 1, n as int));
                }
            }
            k += 1;
        }
        proof {
            assert(mp0.take(n as int) =~= mp0);
            assert(f0.take(n as int) =~= f0);
            assert(mempool_models(self.mempool@) =~= mempool_after(mp0, b));
            assert(self.fees@ =~= fees_after(mp0, f0, b));
            lemma_after_sorted(mp0, f0, b);
            lemma_after_lengths(mp0, f0, b, 0);
        }
    }

    /// Whether `block` may extend the chain, or why not. Changes nothing.
    pub fn check_block(&self, block: &Block) -> (r: Result<(), BtcError>)
        requires
            self.wf(),
        ensures
            r == block_check(self@, block@),
    {
        let n = self.blocks.len();
        if n == 0 {
            if block.header.prev_block_hash != crate::hash::Hash::zero() {
                return Err(BtcError::InvalidBlock);
            }
            return Ok(());
        }
        let last = &self.blocks[n - 1];
        assert(last@ == self@.blocks.last());
        if block.header.prev_block_hash != last.hash() {
            return Err(BtcError::InvalidBlock);
        }
        if !block.header.hash().matches_target(block.header.target) {
            return Err(BtcError::InvalidBlock);
        }
        if block.transactions.len() == 0 {
            return Err(BtcError::InvalidTransaction);
        }
        if MerkleRoot::calculate(block.transactions.as_slice()) != block.header.merkle_root {
            return Err(BtcError::InvalidMerkleRoot);
        }
        if block.header.timestamp <= last.header.timestamp {
            return Err(BtcError::InvalidBlock);
        }
        block.verify_transactions(n as u64, &self.utxos, &self.config)
    }

    /// Validates `block` fully against the current state, then appends it: settled
    /// transactions leave the mempool, the block's spent outputs leave the index and its new
    /// outputs enter it, and the target is retargeted at each interval's end. On an error
    /// nothing changes.
    pub fn add_block(&mut self, block: Block) -> (r: Result<(), BtcError>)
        requires
            old(self).wf(),
        ensures
            final(self).wf(),
            r == block_check(old(self)@, block@),
            r is Err ==> final(self)@ == old(self)@,
            r is Ok ==> same_but_target(final(self)@, after_block(old(self)@, block@)),
            r is Ok ==> final(self)@.target.value() == target_after(
                old(self)@.blocks.push(block@),
                old(self)@.target,
                old(self)@.config,
            ),
    {
        match self.check_block(&block) {
            Ok(()) => {},
            Err(e) => {
                return Err(e);
            },
        }
        let hashes = block_tx_hashes_exec(&block);
        self.drop_settled(&hashes, Ghost(block@));
        apply_transactions_exec(&mut self.utxos, &block.transactions);
        self.blocks.push(block);
        assert(self@.blocks =~= old(self)@.blocks.push(block@));
        proof {
            assert(self@.blocks.drop_last() =~= old(self)@.blocks);
            lemma_apply_same(old(self)@.utxos, utxos_of_blocks(old(self)@.blocks), block@.transactions);
        }
        self.try_adjust_target();
        Ok(())
    }

    /// The index of the first pending transaction that produces `h`.
    fn find_producer(&self, h: &crate::hash::Hash) -> (r: Option<usize>)
        ensures
            match r {
                Some(k) => producer(mempool_models(self.mempool@), *h) == Some(k as int),
                None => producer(mempool_models(self.mempool@), *h) is None,
            },
    {
        let ghost mp = mempool_models(self.mempool@);
        let mut k: usize = 0;
        while k < self.mempool.len()
            invariant
                0 <= k <= self.mempool@.len(),
                mp == mempool_models(self.mempool@),
                producer(mp.take(k as int), *h) is None,
            decreases self.mempool@.len() - k,
        {
            let found = produces_exec(&self.mempool[k].1, h);
            proof {
                assert(mp.take(k + 1).drop_last() =~= mp.take(k as int));
            }
            if found {
                proof {
                    lemma_producer_prefix(mp, *h, k + 1);
                }
                return Some(k);
            }
            k += 1;
        }
        assert(mp.take(k as int) =~= mp);
        None
    }

    /// Applies `evict_one` for each digest of `refs`, in order.
    fn evict_conflicts(&mut self, refs: &Vec<crate::hash::Hash>)
        requires
            old(self).wf(),
        ensures
            final(self).utxos.wf(),
            (final(self)@.utxos, final(self)@.mempool, final(self)@.fees) == evict_all(
                (old(self)@.utxos, old(self)@.mempool, old(self)@.fees),
                refs@,
            ),
            final(self).blocks == old(self).blocks,
            final(self).target == old(self).target,
            final(self).config == old(self).config,
    {
        let ghost st0: PoolState = (old(self)@.utxos, old(self)@.mempool, old(self)@.fees);
        let mut i: usize = 0;
        while i < refs.len()
            invariant
                0 <= i <= refs@.len(),
                self.utxos.wf(),
                st0.1.len() == st0.2.len(),
                fees_descending(st0.2),
                (self@.utxos, self@.mempool, self@.fees) == evict_all(st0, refs@.take(i as int)),
                self.blocks == old(self).blocks,
                self.target == old(self).target,
                self.config == old(self).config,
            decreases refs@.len() - i,
        {
            let h = refs[i];
            let ghost st: PoolState = (self@.utxos, self@.mempool, self@.fees);
            proof {
                lemma_evict_all(st0, refs@.take(i as int));
                assert(refs@.take(i + 1).drop_last() =~= refs@.take(i as int));
                assert(self.mempool@.len() == self@.mempool.len());
            }
            let reserved = match self.utxos.get(&h) {
                Some((b, _)) => b,
                None => false,
            };
            if reserved {
                match self.find_producer(&h) {
                    Some(k) => {
                        proof {
                            lemma_producer_range(st.1, h);
                        }
                        let entry = self.mempool.remove(k);
                        self.fees.remove(k);
                        assert(entry.1@ == st.1[k as int].1);
                        let erefs = tx_refs(&entry.1);
                        mark_all_exec(&mut self.utxos, &erefs, false);
                        assert(self@.mempool =~= st.1.remove(k as int));
                    },
                    None => {
                        self.utxos.set_reserved(&h, false);
                    },
                }
            }
            i += 1;
        }
        assert(refs@.take(i as int) =~= refs@);
    }

    /// Admits `transaction` to the mempool if every input names a known output, none twice,
    /// and its outputs are worth no more than its inputs. Conflicting claims are evicted,
    /// its inputs are reserved, and it is placed by fee, highest first. On an error nothing
    /// changes.
    pub fn add_to_mempool(&mut self, transaction: Transaction) -> (r: Result<(), BtcError>)
        requires
            old(self).wf(),
        ensures
            final(self).wf(),
            match mempool_check(old(self)@.utxos, transaction@) {
                Ok(fee) => r is Ok && admitted(old(self)@, transaction@, fee, final(self)@),
                Err(e) => r == Err::<(), BtcError>(e) && final(self)@ == old(self)@,
            },
    {
        let refs = tx_refs(&transaction);
        let mut i: usize = 0;
        while i < refs.len()
            invariant
                0 <= i <= refs@.len(),
                self.utxos.wf(),
                self.wf(),
                self@ == old(self)@,
                refs@ == input_refs(transaction@.inputs),
                forall|k: int| 0 <= k < i ==> self.utxos@.contains_key(#[trigger] refs@[k]),
            decreases refs@.len() - i,
        {
            if !self.utxos.contains_key(&refs[i]) {
                assert(!self.utxos@.contains_key(refs@[i as int]));
                return Err(BtcError::InvalidTransaction);
            }
            i += 1;
        }
        if !crate::block::all_distinct(&refs) {
            return Err(BtcError::InvalidTransaction);
        }
        let mut j: usize = 0;
        while j < transaction.inputs.len()
            invariant
                0 <= j <= transaction.inputs@.len(),
                self.utxos.wf(),
                self.wf(),
                self@ == old(self)@,
                refs@ == input_refs(transaction@.inputs),
                refs@.no_duplicates(),
                forall|k: int| 0 <= k < refs@.len() ==> self.utxos@.contains_key(#[trigger] refs@[k]),
                forall|k: int|
                    0 <= k < j ==> input_authorized(#[trigger] transaction@.inputs[k], self@.utxos),
            decreases transaction.inputs@.len() - j,
        {
            let input = &transaction.inputs[j];
            assert(input@ == transaction@.inputs[j as int]);
            let authorized = match self.utxos.get(&input.pre_transaction_output_hash) {
                Some((_, out)) => input.signature.verify(&input.pre_transaction_output_hash, &out.pubkey),
                None => false,
            };
            if !authorized {
                assert(!input_authorized(transaction@.inputs[j as int], self@.utxos));
                assert(!(exists|i: int|
                    0 <= i < refs@.len() && !self@.utxos.contains_key(#[trigger] refs@[i])));
                return Err(BtcError::InvalidTransactionInput);
            }
            j += 1;
        }
        let in_total = crate::block::sum_refs(&refs, &self.utxos);
        let out_total = transaction.output_value();
        if in_total < out_total {
            return Err(BtcError::InvalidTransaction);
        }
        let fee_wide = in_total - out_total;
        if fee_wide > u64::MAX as u128 {
            return Err(BtcError::InvalidTransaction);
        }
        let fee = fee_wide as u64;
        let ghost c0 = self@;
        let ghost tx = transaction@;
        self.evict_conflicts(&refs);
        let ghost st = evict_all((c0.utxos, c0.mempool, c0.fees), refs@);
        proof {
            lemma_evict_all((c0.utxos, c0.mempool, c0.fees), refs@);
            lemma_mark_all_keys(st.0, refs@, true);
        }
        mark_all_exec(&mut self.utxos, &refs, true);
        let now = now_seconds();
        let mut p: usize = 0;
        while p < self.fees.len() && self.fees[p] >= fee
            invariant
                0 <= p <= self.fees@.len(),
                self.fees@ == st.2,
                forall|j: int| 0 <= j < p ==> st.2[j] >= fee,
            decreases self.fees@.len() - p,
        {
            p += 1;
        }
        assert(self.mempool@.len() == self@.mempool.len());
        self.mempool.insert(p, (now, transaction));
        self.fees.insert(p, fee);
        proof {
            assert(self@.mempool =~= st.1.insert(p as int, (now, tx)));
            lemma_insert_sorted(st.2, p as int, fee);
            assert(self@.utxos.dom() =~= c0.utxos.dom());
        }
        Ok(())
    }

    /// Recomputes the unspent outputs from the blocks alone; every entry comes back
    /// unreserved.
    pub fn rebuild_utoxs(&mut self)
        requires
            old(self).wf(),
        ensures
            final(self).wf(),
            final(self)@ == (ChainModel { utxos: utxos_of_blocks(old(self)@.blocks), ..old(self)@ }),
    {
        let mut fresh = UtxoSet::new();
        let ghost bs = self@.blocks;
        let mut i: usize = 0;
        while i < self.blocks.len()
            invariant
                0 <= i <= self.blocks@.len(),
                bs == self@.blocks,
                fresh.wf(),
                fresh@ == utxos_of_blocks(bs.take(i as int)),
            decreases self.blocks@.len() - i,
        {
            apply_transactions_exec(&mut fresh, &self.blocks[i].transactions);
            proof {
                assert(bs.take(i + 1).drop_last() =~= bs.take(i as int));
                assert(self.blocks@[i as int]@ == bs[i as int]);
            }
            i += 1;
        }
        assert(bs.take(i as int) =~= bs);
        self.utxos = fresh;
        proof {
            let u = utxos_of_blocks(bs);
            assert(same_outputs(u, u));
        }
    }
}

} // verus!
