use btclib::block::{Block, BlockHeader};
use btclib::blockchain::Blockchain;
use btclib::crypto::{PrivateKey, PublicKey, Signature};
use btclib::error::BtcError;
use btclib::merkle::MerkleRoot;
use btclib::rules::ChainConfig;
use btclib::transaction::{Transaction, TransactionInput, TransactionOutput};
use btclib::uint::U256;

const COIN: u64 = 100_000_000;

fn key() -> (PrivateKey, PublicKey) {
    let sk = PrivateKey::new_key();
    let pk = sk.public_key().expect("fresh keys are valid");
    (sk, pk)
}

fn output(value: u64, id: u128, pk: &PublicKey) -> TransactionOutput {
    TransactionOutput { value, unique_id: id, pubkey: pk.clone() }
}

fn spend(prev: &TransactionOutput, sk: &PrivateKey, outputs: Vec<TransactionOutput>) -> Transaction {
    let h = prev.hash();
    let sig = Signature::sign_output(&h, sk).expect("valid key");
    Transaction::new(vec![TransactionInput { pre_transaction_output_hash: h, signature: sig }], outputs)
}

fn genesis(outputs: Vec<TransactionOutput>, timestamp: i64) -> Block {
    let txs = vec![Transaction::new(vec![], outputs)];
    let root = MerkleRoot::calculate(&txs);
    let header = BlockHeader::new(timestamp, 0, btclib::hash::Hash::zero(), root, ChainConfig::standard().min_target);
    Block::new(header, txs)
}

fn mined(prev: &Block, txs: Vec<Transaction>, target: U256, timestamp: i64) -> Block {
    let root = MerkleRoot::calculate(&txs);
    let mut header = BlockHeader::new(timestamp, 0, prev.hash(), root, target);
    while !header.mine(100_000) {}
    Block::new(header, txs)
}

#[test]
fn digest_of_abc_is_sha256() {
    let h = btclib::hash::Hash::hash(&b"abc".to_vec());
    assert_eq!(h.0.w3, 0xba7816bf8f01cfea);
    assert_eq!(h.0.w2, 0x414140de5dae2223);
    assert_eq!(h.0.w1, 0xb00361a396177a9c);
    assert_eq!(h.0.w0, 0xb410ff61f20015ad);
    let bytes = h.as_bytes();
    assert_eq!(bytes[0], 0xad);
    assert_eq!(bytes[31], 0xba);
}

#[test]
fn zero_digest_matches_any_positive_target() {
    let z = btclib::hash::Hash::zero();
    assert!(z.matches_target(U256::from_u64(1)));
    assert!(!z.matches_target(U256::from_u64(0)));
    let h = btclib::hash::Hash(U256 { w0: 5, w1: 0, w2: 0, w3: 1 });
    assert!(!h.matches_target(U256 { w0: 5, w1: 0, w2: 0, w3: 1 }));
    assert!(h.matches_target(U256 { w0: 6, w1: 0, w2: 0, w3: 1 }));
    assert!(h.matches_target(U256 { w0: 0, w1: 0, w2: 0, w3: 2 }));
}

#[test]
fn merkle_root_pairs_and_duplicates_last() {
    let (_, pk) = key();
    let t1 = Transaction::new(vec![], vec![output(1, 1, &pk)]);
    let t2 = Transaction::new(vec![], vec![output(2, 2, &pk)]);
    let t3 = Transaction::new(vec![], vec![output(3, 3, &pk)]);
    assert_eq!(MerkleRoot::calculate(&[t1.clone()]).0, t1.hash());
    let pair = |a: btclib::hash::Hash, b: btclib::hash::Hash| {
        let mut bytes = Vec::new();
        for u in [a.0, b.0] {
            for w in [u.w3, u.w2, u.w1, u.w0] {
                bytes.extend_from_slice(&w.to_be_bytes());
            }
        }
        btclib::hash::Hash::hash(&bytes)
    };
    let r12 = pair(t1.hash(), t2.hash());
    assert_eq!(MerkleRoot::calculate(&[t1.clone(), t2.clone()]).0, r12);
    let r33 = pair(t3.hash(), t3.hash());
    assert_eq!(MerkleRoot::calculate(&[t1.clone(), t2.clone(), t3.clone()]).0, pair(r12, r33));
    // deterministic, and order matters
    assert_eq!(
        MerkleRoot::calculate(&[t1.clone(), t2.clone()]),
        MerkleRoot::calculate(&[t1.clone(), t2.clone()])
    );
    assert_ne!(MerkleRoot::calculate(&[t1.clone(), t2.clone()]), MerkleRoot::calculate(&[t2, t1]));
}

#[test]
fn reward_halves_at_each_interval() {
    let cfg = ChainConfig::standard();
    assert_eq!(cfg.block_reward(0), 50 * COIN);
    assert_eq!(cfg.block_reward(209), 50 * COIN);
    assert_eq!(cfg.block_reward(210), 25 * COIN);
    assert_eq!(cfg.block_reward(420), 1_250_000_000);
    assert_eq!(cfg.block_reward(210 * 33), 5_000_000_000 / (1u64 << 33));
    assert_eq!(cfg.block_reward(210 * 64), 0);
    assert_eq!(cfg.block_reward(u64::MAX), 0);
}

#[test]
fn retarget_is_clamped() {
    let big = U256 { w0: u64::MAX, w1: u64::MAX, w2: u64::MAX, w3: u64::MAX };
    let old = U256::from_u64(1000);
    assert_eq!(btclib::rules::retarget(&old, 10, 10, &big), U256::from_u64(1000));
    assert_eq!(btclib::rules::retarget(&old, 15, 10, &big), U256::from_u64(1500));
    assert_eq!(btclib::rules::retarget(&old, 7, 10, &big), U256::from_u64(700));
    assert_eq!(btclib::rules::retarget(&old, 100, 10, &big), U256::from_u64(4000));
    assert_eq!(btclib::rules::retarget(&old, 1, 10, &big), U256::from_u64(250));
    assert_eq!(btclib::rules::retarget(&old, 0, 10, &big), U256::from_u64(250));
    assert_eq!(btclib::rules::retarget(&old, 30, 10, &U256::from_u64(1200)), U256::from_u64(1200));
    // a wide value: the top limb times three
    let wide = U256 { w0: 0, w1: 0, w2: 0, w3: 1 << 60 };
    assert_eq!(btclib::rules::retarget(&wide, 3, 1, &big), U256 { w0: 0, w1: 0, w2: 0, w3: 3 << 60 });
}

#[test]
fn mine_stops_at_target_or_after_steps() {
    let root = MerkleRoot(btclib::hash::Hash::zero());
    let easy = U256 { w0: u64::MAX, w1: u64::MAX, w2: u64::MAX, w3: u64::MAX };
    let mut h = BlockHeader::new(7, 3, btclib::hash::Hash::zero(), root, easy);
    assert!(h.mine(5));
    assert_eq!(h.nonce, 3);
    let mut hard = BlockHeader::new(7, 3, btclib::hash::Hash::zero(), root, U256::from_u64(0));
    assert!(!hard.mine(10));
    assert_eq!(hard.nonce, 13);
    let mut wrap = BlockHeader::new(7, u64::MAX, btclib::hash::Hash::zero(), root, U256::from_u64(0));
    assert!(!wrap.mine(1));
    assert_eq!(wrap.nonce, 0);
    let mut h2 = BlockHeader::new(7, 0, btclib::hash::Hash::zero(), root, ChainConfig::standard().min_target);
    while !h2.mine(1000) {}
    assert!(h2.hash().matches_target(h2.target));
}

#[test]
fn genesis_needs_zero_previous_digest() {
    let (_, pk) = key();
    let mut chain = Blockchain::new();
    let mut bad = genesis(vec![output(5, 1, &pk)], 100);
    bad.header.prev_block_hash = btclib::hash::Hash::hash(&vec![1u8]);
    assert_eq!(chain.add_block(bad), Err(BtcError::InvalidBlock));
    assert_eq!(chain.block_height(), 0);
    assert_eq!(chain.add_block(genesis(vec![output(5, 1, &pk)], 100)), Ok(()));
    assert_eq!(chain.block_height(), 1);
    // a second block with a zero previous digest no longer passes
    assert_eq!(chain.add_block(genesis(vec![output(5, 2, &pk)], 200)), Err(BtcError::InvalidBlock));
}

#[test]
fn two_outputs_of_one_transaction_stay_spendable() {
    let (_, pk) = key();
    let mut chain = Blockchain::new();
    let a = output(5, 1, &pk);
    let b = output(7, 2, &pk);
    chain.add_block(genesis(vec![a.clone(), b.clone()], 100)).unwrap();
    assert_eq!(chain.utxos().len(), 2);
    assert_eq!(chain.utxos().get(&a.hash()).unwrap().1.value, 5);
    assert_eq!(chain.utxos().get(&b.hash()).unwrap().1.value, 7);
}

#[test]
fn end_to_end_spend() {
    let (sk1, pk1) = key();
    let (_, pk2) = key();
    let r = 50 * COIN;
    let mut chain = Blockchain::new();
    let out1 = output(r, 1, &pk1);
    let g = genesis(vec![out1.clone()], 1_000);
    chain.add_block(g.clone()).unwrap();
    assert_eq!(chain.block_height(), 1);
    assert_eq!(chain.utxos().len(), 1);
    assert_eq!(chain.utxos().get(&out1.hash()).unwrap().1.value, r);

    let out2 = output(r - 10, 2, &pk2);
    let tx = spend(&out1, &sk1, vec![out2.clone()]);
    assert_eq!(chain.add_to_mempool(tx.clone()), Ok(()));
    assert_eq!(chain.mempool().len(), 1);
    assert_eq!(chain.mempool_fees()[0], 10);
    assert!(chain.utxos().get(&out1.hash()).unwrap().0);

    let reward = chain.config().block_reward(1);
    let coinbase = Transaction::new(vec![], vec![output(reward + 10, 3, &pk1)]);
    let b = mined(&g, vec![coinbase.clone(), tx.clone()], chain.target(), 2_000);
    assert_eq!(chain.add_block(b), Ok(()));
    assert_eq!(chain.block_height(), 2);
    assert_eq!(chain.mempool().len(), 0);
    assert!(chain.utxos().get(&out1.hash()).is_none());
    assert_eq!(chain.utxos().get(&out2.hash()).unwrap().1.value, r - 10);
    assert_eq!(chain.utxos().get(&coinbase.outputs[0].hash()).unwrap().1.value, reward + 10);
    assert_eq!(chain.utxos().len(), 2);

    // spending the consumed output again is refused
    let again = spend(&out1, &sk1, vec![output(1, 9, &pk2)]);
    assert_eq!(chain.add_to_mempool(again), Err(BtcError::InvalidTransaction));
}

#[test]
fn wrong_signer_is_refused_and_nothing_changes() {
    let (sk1, pk1) = key();
    let (sk2, pk2) = key();
    let r = 50 * COIN;
    let mut chain = Blockchain::new();
    let out1 = output(r, 1, &pk1);
    let g = genesis(vec![out1.clone()], 1_000);
    chain.add_block(g.clone()).unwrap();
    let forged = spend(&out1, &sk2, vec![output(r - 10, 2, &pk2)]);
    let reward = chain.config().block_reward(1);
    let coinbase = Transaction::new(vec![], vec![output(reward + 10, 3, &pk1)]);
    let b = mined(&g, vec![coinbase, forged], chain.target(), 2_000);
    let target = chain.target();
    assert_eq!(chain.add_block(b), Err(BtcError::InvalidTransactionInput));
    assert_eq!(chain.block_height(), 1);
    assert_eq!(chain.utxos().len(), 1);
    assert!(!chain.utxos().get(&out1.hash()).unwrap().0);
    assert_eq!(chain.mempool().len(), 0);
    assert_eq!(chain.target(), target);
}

#[test]
fn block_checks_report_their_kind() {
    let (sk1, pk1) = key();
    let (_, pk2) = key();
    let mut chain = Blockchain::new();
    let out1 = output(50 * COIN, 1, &pk1);
    let g = genesis(vec![out1.clone()], 1_000);
    chain.add_block(g.clone()).unwrap();
    let target = chain.target();
    let reward = chain.config().block_reward(1);

    // wrong reward
    let cb = Transaction::new(vec![], vec![output(reward + 1, 3, &pk1)]);
    assert_eq!(chain.add_block(mined(&g, vec![cb], target, 2_000)), Err(BtcError::InvalidTransaction));
    // coinbase with no outputs
    let cb = Transaction::new(vec![], vec![]);
    assert_eq!(chain.add_block(mined(&g, vec![cb], target, 2_000)), Err(BtcError::InvalidTransaction));
    // no transactions at all
    let mut header = BlockHeader::new(2_000, 0, g.hash(), MerkleRoot(btclib::hash::Hash::zero()), target);
    while !header.mine(100_000) {}
    assert_eq!(chain.add_block(Block::new(header, vec![])), Err(BtcError::InvalidTransaction));
    // timestamp not after the previous block
    let cb = Transaction::new(vec![], vec![output(reward, 3, &pk1)]);
    assert_eq!(chain.add_block(mined(&g, vec![cb.clone()], target, 1_000)), Err(BtcError::InvalidBlock));
    // merkle root that commits to something else
    let mut header = BlockHeader::new(2_000, 0, g.hash(), MerkleRoot(btclib::hash::Hash::zero()), target);
    while !header.mine(100_000) {}
    assert_eq!(chain.add_block(Block::new(header, vec![cb.clone()])), Err(BtcError::InvalidMerkleRoot));
    // wrong previous digest
    assert_eq!(chain.add_block(mined(&g.clone(), vec![cb.clone()], target, 2_000)).is_ok(), true);
    assert_eq!(chain.add_block(mined(&g, vec![cb.clone()], target, 3_000)), Err(BtcError::InvalidBlock));
    // header digest above its own target
    let mut weak = mined(&g, vec![cb.clone()], target, 3_000);
    weak.header.target = U256::from_u64(0);
    assert_eq!(chain.add_block(weak), Err(BtcError::InvalidBlock));
    // spends more than it has
    let greedy = spend(&out1, &sk1, vec![output(50 * COIN + 1, 4, &pk2)]);
    assert_eq!(chain.add_to_mempool(greedy), Err(BtcError::InvalidTransaction));
}

#[test]
fn mempool_rejects_unknown_and_repeated_inputs() {
    let (sk1, pk1) = key();
    let mut chain = Blockchain::new();
    let out1 = output(100, 1, &pk1);
    chain.add_block(genesis(vec![out1.clone()], 1_000)).unwrap();
    let unknown = spend(&output(100, 42, &pk1), &sk1, vec![output(1, 5, &pk1)]);
    assert_eq!(chain.add_to_mempool(unknown), Err(BtcError::InvalidTransaction));
    let mut twice = spend(&out1, &sk1, vec![output(1, 6, &pk1)]);
    twice.inputs.push(twice.inputs[0].clone());
    assert_eq!(chain.add_to_mempool(twice), Err(BtcError::InvalidTransaction));
    assert_eq!(chain.mempool().len(), 0);
    assert!(!chain.utxos().get(&out1.hash()).unwrap().0);
}

#[test]
fn mempool_orders_by_fee_descending() {
    let (sk1, pk1) = key();
    let mut chain = Blockchain::new();
    let outs: Vec<TransactionOutput> = (0..3).map(|i| output(1_000, i as u128, &pk1)).collect();
    chain.add_block(genesis(outs.clone(), 1_000)).unwrap();
    let t_mid = spend(&outs[0], &sk1, vec![output(1_000 - 20, 10, &pk1)]);
    let t_low = spend(&outs[1], &sk1, vec![output(1_000 - 5, 11, &pk1)]);
    let t_high = spend(&outs[2], &sk1, vec![output(1_000 - 30, 12, &pk1)]);
    chain.add_to_mempool(t_mid.clone()).unwrap();
    chain.add_to_mempool(t_low.clone()).unwrap();
    chain.add_to_mempool(t_high.clone()).unwrap();
    assert_eq!(chain.mempool_fees().clone(), vec![30, 20, 5]);
    let order: Vec<btclib::hash::Hash> = chain.mempool().iter().map(|(_, t)| t.hash()).collect();
    assert_eq!(order, vec![t_high.hash(), t_mid.hash(), t_low.hash()]);
}

#[test]
fn competing_claim_releases_and_takes_over() {
    let (sk1, pk1) = key();
    let mut chain = Blockchain::new();
    let out1 = output(1_000, 1, &pk1);
    chain.add_block(genesis(vec![out1.clone()], 1_000)).unwrap();
    let first = spend(&out1, &sk1, vec![output(990, 2, &pk1)]);
    let second = spend(&out1, &sk1, vec![output(900, 3, &pk1)]);
    chain.add_to_mempool(first).unwrap();
    chain.add_to_mempool(second.clone()).unwrap();
    assert!(chain.utxos().get(&out1.hash()).unwrap().0);
    assert_eq!(chain.mempool().len(), 2);
    assert_eq!(chain.mempool()[0].1.hash(), second.hash());
}

#[test]
fn pending_producer_of_a_claimed_output_is_evicted() {
    let (sk1, pk1) = key();
    let mut chain = Blockchain::new();
    let out1 = output(1_000, 1, &pk1);
    let out2 = output(1_000, 2, &pk1);
    chain.add_block(genesis(vec![out1.clone(), out2.clone()], 1_000)).unwrap();
    // a pending transaction whose output is, by construction, the same as `out2`
    let producer = spend(&out1, &sk1, vec![out2.clone()]);
    chain.add_to_mempool(producer).unwrap();
    let first = spend(&out2, &sk1, vec![output(990, 4, &pk1)]);
    chain.add_to_mempool(first).unwrap();
    assert_eq!(chain.mempool().len(), 2);
    let second = spend(&out2, &sk1, vec![output(980, 5, &pk1)]);
    chain.add_to_mempool(second).unwrap();
    // the producer left and released `out1`
    assert_eq!(chain.mempool().len(), 2);
    assert!(!chain.utxos().get(&out1.hash()).unwrap().0);
    assert!(chain.utxos().get(&out2.hash()).unwrap().0);
}

#[test]
fn retarget_happens_at_interval_end() {
    let (_, pk) = key();
    let cfg = ChainConfig {
        initial_reward: 50,
        halving_interval: 210,
        min_target: ChainConfig::standard().min_target,
        retarget_interval: 2,
        ideal_block_time: 10,
    };
    let mut chain = Blockchain::with_config(cfg);
    let g = genesis(vec![output(1, 1, &pk)], 1_000);
    chain.add_block(g.clone()).unwrap();
    let before = chain.target();
    let cb = Transaction::new(vec![], vec![output(cfg.block_reward(1), 2, &pk)]);
    // two blocks spanning 5 seconds against an intended 20: a quarter of the target
    chain.add_block(mined(&g, vec![cb], before, 1_005)).unwrap();
    let expected = btclib::rules::retarget(&before, 5, 20, &cfg.min_target);
    assert_eq!(chain.target(), expected);
    assert!(chain.target().lt(&before));
}

#[test]
fn signatures_verify_only_for_their_key_and_digest() {
    let (sk1, pk1) = key();
    let (_, pk2) = key();
    let h = btclib::hash::Hash::hash(&vec![1, 2, 3]);
    let other = btclib::hash::Hash::hash(&vec![1, 2, 4]);
    let sig = Signature::sign_output(&h, &sk1).unwrap();
    assert_eq!(sig.0.len(), 64);
    assert!(sig.verify(&h, &pk1));
    assert!(!sig.verify(&other, &pk1));
    assert!(!sig.verify(&h, &pk2));
    assert_eq!(pk1.0.len(), 33);
    // signing is deterministic
    assert_eq!(Signature::sign_output(&h, &sk1).unwrap().0, sig.0);
    // an all-zero secret is no key
    let zero = PrivateKey(vec![0u8; 32]);
    assert!(zero.public_key().is_none());
    assert!(Signature::sign_output(&h, &zero).is_none());
}

#[test]
fn frames_carry_their_length() {
    let payload = vec![9u8, 8, 7];
    let f = btclib::network::frame(&payload);
    assert_eq!(f, vec![0, 0, 0, 0, 0, 0, 0, 3, 9, 8, 7]);
    assert_eq!(btclib::network::frame_length(&f[..8]), Some(3));
    assert_eq!(btclib::network::frame_length(&[0, 0, 0, 0, 0, 0, 1, 0]), Some(256));
    assert_eq!(btclib::network::frame_length(&f[..7]), None);
}

#[test]
fn miner_fee_and_coinbase_checks() {
    let (sk1, pk1) = key();
    let mut chain = Blockchain::new();
    let out1 = output(1_000, 1, &pk1);
    let g = genesis(vec![out1.clone()], 1_000);
    chain.add_block(g.clone()).unwrap();
    let cfg = chain.config();
    let tx = spend(&out1, &sk1, vec![output(900, 2, &pk1)]);
    let reward = cfg.block_reward(1);
    let cb = Transaction::new(vec![], vec![output(reward + 100, 3, &pk1)]);
    let b = Block::new(g.header, vec![cb, tx.clone()]);
    assert_eq!(b.calculate_miner_fee(chain.utxos()), Ok(100));
    assert_eq!(b.verify_coinbase_transaction(1, chain.utxos(), &cfg), Ok(()));
    assert_eq!(b.verify_coinbase_transaction(210, chain.utxos(), &cfg), Err(BtcError::InvalidTransaction));
    assert_eq!(b.verify_transactions(1, chain.utxos(), &cfg), Ok(()));
    // the same output spent twice within one block
    let cb2 = Transaction::new(vec![], vec![output(reward + 100, 4, &pk1)]);
    let twice = Block::new(g.header, vec![cb2, tx.clone(), tx.clone()]);
    assert_eq!(twice.calculate_miner_fee(chain.utxos()), Err(BtcError::InvalidTransaction));
    // outputs worth more than the inputs
    let greedy = spend(&out1, &sk1, vec![output(1_001, 5, &pk1)]);
    let cb3 = Transaction::new(vec![], vec![output(reward, 6, &pk1)]);
    let over = Block::new(g.header, vec![cb3, greedy]);
    assert_eq!(over.calculate_miner_fee(chain.utxos()), Err(BtcError::InvalidTransactionInput));
    // a coinbase that spends something
    let bad_cb = spend(&out1, &sk1, vec![output(reward, 7, &pk1)]);
    let b4 = Block::new(g.header, vec![bad_cb]);
    assert_eq!(b4.verify_coinbase_transaction(1, chain.utxos(), &cfg), Err(BtcError::InvalidTransaction));
    assert_eq!(Block::new(g.header, vec![]).verify_transactions(1, chain.utxos(), &cfg), Err(BtcError::InvalidTransaction));
    // the block digest covers the transactions, the header digest does not
    assert_ne!(b.hash(), b.header.hash());
    assert_ne!(b.hash(), twice.hash());
}

#[test]
fn utxo_set_operations() {
    let (_, pk) = key();
    let mut set = btclib::utxo::UtxoSet::new();
    let a = output(5, 1, &pk);
    let b = output(6, 2, &pk);
    set.insert(a.hash(), false, a.clone());
    set.insert(b.hash(), true, b.clone());
    assert_eq!(set.len(), 2);
    set.insert(a.hash(), false, output(8, 1, &pk));
    assert_eq!(set.len(), 2);
    assert_eq!(set.get(&a.hash()).unwrap().1.value, 8);
    set.set_reserved(&a.hash(), true);
    assert!(set.get(&a.hash()).unwrap().0);
    set.remove(&b.hash());
    assert!(!set.contains_key(&b.hash()));
    assert_eq!(set.len(), 1);
    set.remove(&b.hash());
    assert_eq!(set.len(), 1);
}

#[test]
fn rebuild_recovers_outputs_unreserved() {
    let (sk1, pk1) = key();
    let mut chain = Blockchain::new();
    let out1 = output(1_000, 1, &pk1);
    let out2 = output(2_000, 2, &pk1);
    chain.add_block(genesis(vec![out1.clone(), out2.clone()], 1_000)).unwrap();
    chain.add_to_mempool(spend(&out1, &sk1, vec![output(990, 3, &pk1)])).unwrap();
    assert!(chain.utxos().get(&out1.hash()).unwrap().0);
    chain.rebuild_utoxs();
    assert_eq!(chain.utxos().len(), 2);
    assert!(!chain.utxos().get(&out1.hash()).unwrap().0);
    assert_eq!(chain.utxos().get(&out2.hash()).unwrap().1.value, 2_000);
}

#[test]
fn mempool_refuses_wrong_signer_and_nothing_changes() {
    let (sk1, pk1) = key();
    let (sk2, pk2) = key();
    let mut chain = Blockchain::new();
    let out1 = output(1_000, 1, &pk1);
    chain.add_block(genesis(vec![out1.clone()], 1_000)).unwrap();
    let honest = spend(&out1, &sk1, vec![output(990, 2, &pk1)]);
    chain.add_to_mempool(honest.clone()).unwrap();
    let forged = spend(&out1, &sk2, vec![output(900, 3, &pk2)]);
    assert_eq!(chain.add_to_mempool(forged), Err(BtcError::InvalidTransactionInput));
    assert_eq!(chain.mempool().len(), 1);
    assert_eq!(chain.mempool()[0].1.hash(), honest.hash());
    assert_eq!(chain.mempool_fees().clone(), vec![10]);
    assert!(chain.utxos().get(&out1.hash()).unwrap().0);
    assert_eq!(chain.utxos().len(), 1);
    // a signature over another digest is refused too
    let mut misdirected = spend(&out1, &sk1, vec![output(900, 4, &pk1)]);
    misdirected.inputs[0].signature =
        Signature::sign_output(&btclib::hash::Hash::zero(), &sk1).unwrap();
    assert_eq!(chain.add_to_mempool(misdirected), Err(BtcError::InvalidTransactionInput));
}

#[test]
fn advance_nonce_wraps_with_fresh_time() {
    let root = MerkleRoot(btclib::hash::Hash::zero());
    let mut h = BlockHeader::new(7, 41, btclib::hash::Hash::zero(), root, U256::from_u64(0));
    h.advance_nonce(99);
    assert_eq!((h.nonce, h.timestamp), (42, 7));
    let mut w = BlockHeader::new(7, u64::MAX, btclib::hash::Hash::zero(), root, U256::from_u64(0));
    w.advance_nonce(99);
    assert_eq!((w.nonce, w.timestamp), (0, 99));
}

#[test]
fn mine_stops_at_first_solving_nonce() {
    let root = MerkleRoot(btclib::hash::Hash::zero());
    let target = ChainConfig::standard().min_target;
    let start = BlockHeader::new(7, 0, btclib::hash::Hash::zero(), root, target);
    let mut first = start;
    while !first.hash().matches_target(target) {
        first.nonce += 1;
    }
    let mut h = start;
    if start.hash().matches_target(target) {
        assert!(h.mine(10));
        assert_eq!(h, start);
    } else {
        assert!(h.mine(first.nonce as usize + 5));
        assert_eq!(h, first);
        let mut short = start;
        assert!(!short.mine(first.nonce as usize - 1));
        assert_eq!(short.nonce, first.nonce - 1);
        assert_eq!(short.timestamp, 7);
    }
}
