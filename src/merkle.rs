//! The merkle root that commits a block header to its transactions.

use vstd::prelude::*;
use crate::encode::{enc_u256, push_u256};
use crate::transaction::{Transaction, TransactionModel, transaction_hash, models};

verus! {

/// The parent of two nodes: the digest of their concatenated encodings.
pub open spec fn pair_hash(l: crate::hash::Hash, r: crate::hash::Hash) -> crate::hash::Hash {
    crate::hash::Hash::of(enc_u256(l.0) + enc_u256(r.0))
}

/// The layer above: adjacent nodes paired, an odd last node paired with itself.
pub open spec fn next_layer(l: Seq<crate::hash::Hash>) -> Seq<crate::hash::Hash> {
    Seq::new(
        ((l.len() + 1) / 2) as nat,
        |i: int|
            pair_hash(l[2 * i], if 2 * i + 1 < l.len() { l[2 * i + 1] } else { l[2 * i] }),
    )
}

/// The single node that repeated pairing leaves.
pub open spec fn root_of_layer(l: Seq<crate::hash::Hash>) -> crate::hash::Hash
    decreases l.len(),
{
    if l.len() <= 1 {
        l[0]
    } else {
        root_of_layer(next_layer(l))
    }
}

pub open spec fn leaves(txs: Seq<TransactionModel>) -> Seq<crate::hash::Hash> {
    Seq::new(txs.len(), |i: int| transaction_hash(txs[i]))
}

/// The merkle root of an ordered, non-empty list of transactions.
pub open spec fn merkle_root_of(txs: Seq<TransactionModel>) -> crate::hash::Hash {
    root_of_layer(leaves(txs))
}

/// The root is a function of the ordered transaction list: equal lists give equal roots.
pub proof fn lemma_merkle_deterministic(t1: Seq<TransactionModel>, t2: Seq<TransactionModel>)
    requires
        t1 == t2,
    ensures
        merkle_root_of(t1) == merkle_root_of(t2),
{
}

#[derive(Clone, Copy, Debug, PartialEq, Eq, Structural)]
pub struct MerkleRoot(pub crate::hash::Hash);

fn pair_hash_exec(l: &crate::hash::Hash, r: &crate::hash::Hash) -> (h: crate::hash::Hash)
    ensures
        h == pair_hash(*l, *r),
{
    let mut bytes: Vec<u8> = Vec::new();
    push_u256(&mut bytes, &l.0);
    push_u256(&mut bytes, &r.0);
    assert(bytes@ =~= enc_u256(l.0) + enc_u256(r.0));
    crate::hash::Hash::hash(&bytes)
}

impl MerkleRoot {
    /// Hashes each transaction, then pairs layers up to a single digest.
    pub fn calculate(transactions: &[Transaction]) -> (r: MerkleRoot)
        requires
            transactions@.len() > 0,
        ensures
            r == MerkleRoot(merkle_root_of(models(transactions@))),
    {
        let ghost txs = models(transactions@);
        let mut layer: Vec<crate::hash::Hash> = Vec::new();
        let mut i: usize = 0;
        while i < transactions.len()
            invariant
                0 <= i <= transactions@.len(),
                txs == models(transactions@),
                layer@ == leaves(txs).take(i as int),
            decreases transactions@.len() - i,
        {
            let h = transactions[i].hash();
            layer.push(h);
            i += 1;
            assert(layer@ =~= leaves(txs).take(i as int));
        }
        assert(layer@ =~= leaves(txs));
        while layer.len() > 1
            invariant
                layer@.len() >= 1,
                root_of_layer(layer@) == merkle_root_of(txs),
            decreases layer@.len(),
        {
            let ghost cur = layer@;
            let mut next: Vec<crate::hash::Hash> = Vec::new();
            let n = layer.len();
            let pairs = n / 2 + n % 2;
            let mut k: usize = 0;
            while k < pairs
                invariant
                    layer@ == cur,
                    n == cur.len(),
                    n > 1,
                    pairs == (n + 1) / 2,
                    0 <= k <= pairs,
                    next@ == next_layer(cur).take(k as int),
                decreases pairs - k,
            {
                let j = 2 * k;
                let right = if j + 1 < n {
                    &layer[j + 1]
                } else {
                    &layer[j]
                };
                let h = pair_hash_exec(&layer[j], right);
                next.push(h);
                k += 1;
                assert(next@ =~= next_layer(cur).take(k as int));
            }
            assert(next@ =~= next_layer(cur));
            layer = next;
        }
        MerkleRoot(layer[0])
    }
}

} // verus!
