//! Consensus parameters, the block reward schedule and the difficulty retarget.

use vstd::prelude::*;
use vstd::arithmetic::power2::{pow2, lemma_pow2_unfold, lemma_pow2_strictly_increases, lemma_pow2_pos};
use vstd::arithmetic::div_mod::{lemma_div_denominator, lemma_basic_div, lemma_div_is_ordered};
use crate::uint::{U256, Wide, mul_small, div_small, wide_lt, lemma_widen_value, lemma_narrow_value};

verus! {

/// Coins created by the first blocks, before any halving.
pub const INITIAL_REWARD: u64 = 50;

/// Blocks between two halvings of the reward.
pub const HALVING_INTERVAL: u64 = 210;

/// Intended seconds between blocks.
pub const IDEAL_BLOCK_TIME: u64 = 10;

/// Blocks between two retargets.
pub const DIFFICULTY_UPDATE_INTERVAL: u64 = 50;

/// Smallest units in one coin.
pub const COIN: u64 = 100_000_000;

/// The rules one chain runs by.
#[derive(Clone, Copy, Debug)]
pub struct ChainConfig {
    pub initial_reward: u64,
    pub halving_interval: u64,
    /// The easiest target allowed: targets never rise above it.
    pub min_target: U256,
    pub retarget_interval: u64,
    pub ideal_block_time: u64,
}

impl ChainConfig {
    pub open spec fn wf(self) -> bool {
        &&& self.halving_interval > 0
        &&& self.retarget_interval > 0
        &&& self.ideal_block_time > 0
        &&& self.initial_reward * COIN <= u64::MAX
        &&& self.retarget_interval * self.ideal_block_time <= u64::MAX
    }

    /// The standard parameters; the easiest target has its top 16 bits clear.
    pub open spec fn standard_spec() -> ChainConfig {
        ChainConfig {
            initial_reward: INITIAL_REWARD,
            halving_interval: HALVING_INTERVAL,
            min_target: U256 { w0: u64::MAX, w1: u64::MAX, w2: u64::MAX, w3: 0x0000_ffff_ffff_ffffu64 },
            retarget_interval: DIFFICULTY_UPDATE_INTERVAL,
            ideal_block_time: IDEAL_BLOCK_TIME,
        }
    }

    pub fn standard() -> (r: ChainConfig)
        ensures
            r.wf(),
            r == ChainConfig::standard_spec(),
    {
        ChainConfig {
            initial_reward: INITIAL_REWARD,
            halving_interval: HALVING_INTERVAL,
            min_target: U256 { w0: u64::MAX, w1: u64::MAX, w2: u64::MAX, w3: 0x0000_ffff_ffff_ffffu64 },
            retarget_interval: DIFFICULTY_UPDATE_INTERVAL,
            ideal_block_time: IDEAL_BLOCK_TIME,
        }
    }

    /// The reward for the block at `height`: the initial reward in smallest units,
    /// halved (rounding down) once per full halving interval.
    pub open spec fn reward_at(self, height: u64) -> nat {
        ((self.initial_reward * COIN) as nat) / pow2((height / self.halving_interval) as nat)
    }

    pub fn block_reward(&self, height: u64) -> (r: u64)
        requires
            self.wf(),
        ensures
            r == self.reward_at(height),
    {
        let k = height / self.halving_interval;
        let full = self.initial_reward * COIN;
        let mut reward = full;
        let mut i: u64 = 0;
        proof {
            assert(pow2(0) == 1) by {
                vstd::arithmetic::power2::lemma2_to64();
            }
        }
        while i < k && reward > 0
            invariant
                i <= k,
                reward == (full as nat) / pow2(i as nat),
            decreases k - i,
        {
            proof {
                lemma_pow2_pos(i as nat);
                lemma_div_denominator(full as int, pow2(i as nat) as int, 2);
                lemma_pow2_unfold((i + 1) as nat);
            }
            reward = reward / 2;
            i += 1;
        }
        proof {
            if i < k {
                lemma_pow2_pos(i as nat);
                lemma_pow2_strictly_increases(i as nat, k as nat);
                if (full as nat) >= pow2(i as nat) {
                    lemma_div_is_ordered(pow2(i as nat) as int, full as int, pow2(i as nat) as int);
                    assert(pow2(i as nat) as int / pow2(i as nat) as int == 1) by (nonlinear_arith)
                        requires pow2(i as nat) > 0;
                }
                lemma_basic_div(full as int, pow2(k as nat) as int);
            }
        }
        reward
    }
}

/// A target moved by the ratio of measured to intended time, kept within a factor of four
/// of the old target, and never above `min`.
pub open spec fn retarget_value(old: nat, actual: nat, ideal: nat, min: nat) -> nat {
    let raw = old * actual / ideal;
    let clamped = if raw < old / 4 {
        old / 4
    } else if raw > old * 4 {
        old * 4
    } else {
        raw
    };
    if clamped > min {
        min
    } else {
        clamped
    }
}

pub fn retarget(old: &U256, actual: u64, ideal: u64, min: &U256) -> (r: U256)
    requires
        ideal > 0,
    ensures
        r.value() == retarget_value(old.value(), actual as nat, ideal as nat, min.value()),
{
    proof {
        lemma_widen_value(*old);
        lemma_widen_value(*min);
    }
    let raw = div_small(&mul_small(old, actual), ideal);
    let lo = div_small(&old.widen_exec(), 4);
    let hi = mul_small(old, 4);
    let clamped: Wide = if wide_lt(&raw, &lo) {
        lo
    } else if wide_lt(&hi, &raw) {
        hi
    } else {
        raw
    };
    let m = min.widen_exec();
    let res: Wide = if wide_lt(&m, &clamped) {
        m
    } else {
        clamped
    };
    proof {
        lemma_narrow_value(res);
    }
    U256 { w0: res.w0, w1: res.w1, w2: res.w2, w3: res.w3 }
}

/// A retarget keeps the new target within a factor of four of the old one, and at or below
/// the easiest target, whatever time was measured.
pub proof fn lemma_retarget_clamped(old: nat, actual: nat, ideal: nat, min: nat)
    requires
        ideal > 0,
        old <= min,
    ensures
        old / 4 <= retarget_value(old, actual, ideal, min) <= old * 4,
        retarget_value(old, actual, ideal, min) <= min,
{
}

/// The reward halves (rounding down) from one halving interval to the next.
pub proof fn lemma_reward_halves(cfg: ChainConfig, height: u64)
    requires
        cfg.wf(),
        height + cfg.halving_interval <= u64::MAX,
    ensures
        cfg.reward_at((height + cfg.halving_interval) as u64) == cfg.reward_at(height) / 2,
{
    let k = (height / cfg.halving_interval) as nat;
    let h2 = (height + cfg.halving_interval) as u64;
    assert(h2 / cfg.halving_interval == k + 1) by (nonlinear_arith)
        requires h2 == height + cfg.halving_interval, cfg.halving_interval > 0,
            k == height / cfg.halving_interval;
    lemma_pow2_pos(k);
    lemma_pow2_unfold(k + 1);
    lemma_div_denominator((cfg.initial_reward * COIN) as int, pow2(k) as int, 2);
}

/// Within one halving interval the reward stays the same.
pub proof fn lemma_reward_constant_within_interval(cfg: ChainConfig, h1: u64, h2: u64)
    requires
        cfg.wf(),
        h1 / cfg.halving_interval == h2 / cfg.halving_interval,
    ensures
        cfg.reward_at(h1) == cfg.reward_at(h2),
{
}

} // verus!
