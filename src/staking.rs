//! Stake records, time-accrued rewards and the fee split on claims.
use vstd::prelude::*;

use crate::error::ForgeError;
use crate::fixed_point::{amount_mul, exact, fits};

verus! {

/// Rewards accrue at this many raw units per staked unit per second.
pub const REWARD_RATE: i128 = 100;

/// The share of claimed rewards retained as fee is one part in this many.
pub const FEE_DIVISOR: i128 = 100;

/// One account's staking position.
#[derive(Clone, Copy, Debug, PartialEq, Eq, Structural)]
pub struct Stake {
    /// The principal currently staked.
    pub amount: i128,
    /// When the current accrual period began.
    pub timestamp: u64,
    /// Rewards credited so far, after the fee.
    pub rewards: i128,
}

/// A stake record and the account that owns it.
#[derive(Clone, Copy, Debug, PartialEq, Eq, Structural)]
pub struct StakeEntry {
    pub account: u64,
    pub stake: Stake,
}

impl Stake {
    pub open spec fn valid(self) -> bool {
        self.amount >= 0 && self.rewards >= 0
    }
}

/// Seconds since the accrual period began; none if the clock reads earlier.
pub open spec fn elapsed_since(timestamp: u64, now: u64) -> int {
    if now >= timestamp {
        now - timestamp
    } else {
        0
    }
}

/// `amount * REWARD_RATE * elapsed`, each product checked.
pub open spec fn reward_result(amount: int, elapsed: int) -> Result<i128, ForgeError> {
    if !fits(amount * REWARD_RATE) {
        Err(ForgeError::Overflow)
    } else {
        exact(amount * REWARD_RATE * elapsed)
    }
}

/// The rewards that `amount` earns over `elapsed` seconds.
pub fn accrued_rewards(amount: i128, elapsed: u64) -> (r: Result<i128, ForgeError>)
    ensures
        r == reward_result(amount as int, elapsed as int),
{
    let per_second = match amount_mul(amount, REWARD_RATE) {
        Ok(v) => v,
        Err(e) => return Err(e),
    };
    amount_mul(per_second, elapsed as i128)
}

/// The rewards that `amount` earns between `timestamp` and `now`.
pub fn rewards_between(amount: i128, timestamp: u64, now: u64) -> (r: Result<i128, ForgeError>)
    ensures
        r == reward_result(amount as int, elapsed_since(timestamp, now)),
{
    let elapsed: u64 = if now >= timestamp {
        now - timestamp
    } else {
        0
    };
    accrued_rewards(amount, elapsed)
}

/// Splits claimed rewards into the retained fee (one percent, rounded down)
/// and what the account keeps.
pub fn split_rewards(rewards: i128) -> (r: (i128, i128))
    requires
        rewards >= 0,
    ensures
        r.0 == rewards / FEE_DIVISOR,
        r.0 + r.1 == rewards,
        0 <= r.0 <= r.1,
{
    let gas_fee = rewards / FEE_DIVISOR;
    (gas_fee, rewards - gas_fee)
}

/// Accrual is linear in time: twice the elapsed time earns exactly twice the
/// rewards, and if the longer period does not overflow neither does the shorter.
pub proof fn lemma_rewards_linear(amount: i128, elapsed: u64)
    requires
        amount >= 0,
        reward_result(amount as int, 2 * elapsed) is Ok,
    ensures
        reward_result(amount as int, elapsed as int) is Ok,
        reward_result(amount as int, 2 * elapsed)->Ok_0 == 2 * reward_result(
            amount as int,
            elapsed as int,
        )->Ok_0,
{
    let x = amount * REWARD_RATE;
    assert(0 <= x * elapsed <= x * (2 * elapsed)) by (nonlinear_arith)
        requires
            x >= 0,
            elapsed >= 0,
    ;
    assert(x * (2 * elapsed) == 2 * (x * elapsed)) by (nonlinear_arith);
}

/// The first position at or after `k` that holds a record of `account`.
pub open spec fn stake_index_from(stakes: Seq<StakeEntry>, account: u64, k: int) -> Option<int>
    decreases stakes.len() - k,
{
    if k < 0 || k >= stakes.len() {
        None
    } else if stakes[k].account == account {
        Some(k)
    } else {
        stake_index_from(stakes, account, k + 1)
    }
}

/// The position of the record of `account`, if there is one.
pub open spec fn stake_index(stakes: Seq<StakeEntry>, account: u64) -> Option<int> {
    stake_index_from(stakes, account, 0)
}

/// Looks up the position of the record of `account`.
pub fn find_stake(stakes: &Vec<StakeEntry>, account: u64) -> (r: Option<usize>)
    ensures
        match r {
            Some(i) => stake_index(stakes@, account) == Some(i as int),
            None => stake_index(stakes@, account) is None,
        },
{
    let mut i: usize = 0;
    while i < stakes.len()
        invariant
            i <= stakes@.len(),
            stake_index(stakes@, account) == stake_index_from(stakes@, account, i as int),
        decreases stakes@.len() - i,
    {
        if stakes[i].account == account {
            return Some(i);
        }
        i = i + 1;
    }
    None
}

/// No account has two stake records.
pub open spec fn stake_accounts_distinct(stakes: Seq<StakeEntry>) -> bool {
    forall|i: int, j: int|
        #![trigger stakes[i], stakes[j]]
        0 <= i < j < stakes.len() ==> stakes[i].account != stakes[j].account
}

/// Whether no account has two records in the list.
pub fn stake_accounts_are_distinct(stakes: &Vec<StakeEntry>) -> (r: bool)
    ensures
        r == stake_accounts_distinct(stakes@),
{
    let mut j: usize = 0;
    while j < stakes.len()
        invariant
            j <= stakes@.len(),
            forall|a: int, b: int|
                #![trigger stakes@[a], stakes@[b]]
                0 <= a < b < j ==> stakes@[a].account != stakes@[b].account,
        decreases stakes@.len() - j,
    {
        let mut i: usize = 0;
        while i < j
            invariant
                i <= j < stakes@.len(),
                forall|a: int| 0 <= a < i ==> #[trigger] stakes@[a].account != stakes@[j as int].account,
            decreases j - i,
        {
            if stakes[i].account == stakes[j].account {
                return false;
            }
            i = i + 1;
        }
        assert forall|a: int, b: int| 0 <= a < b < j + 1 implies stakes@[a].account
            != stakes@[b].account by {
            if b == j {
                assert(stakes@[a].account != stakes@[j as int].account);
            }
        }
        j = j + 1;
    }
    true
}

/// A lookup that finds nothing from `k` on means no record from `k` on is the account's.
pub proof fn lemma_stake_index_absent(stakes: Seq<StakeEntry>, account: u64, k: int)
    requires
        0 <= k,
        stake_index_from(stakes, account, k) is None,
    ensures
        forall|i: int| k <= i < stakes.len() ==> #[trigger] stakes[i].account != account,
    decreases stakes.len() - k,
{
    if k < stakes.len() {
        lemma_stake_index_absent(stakes, account, k + 1);
    }
}

/// A found position is in range and holds a record of the account.
pub proof fn lemma_stake_index_found(stakes: Seq<StakeEntry>, account: u64, k: int)
    requires
        0 <= k,
    ensures
        stake_index_from(stakes, account, k) matches Some(i) ==> k <= i < stakes.len()
            && stakes[i].account == account,
    decreases stakes.len() - k,
{
    if k < stakes.len() && stakes[k].account != account {
        lemma_stake_index_found(stakes, account, k + 1);
    }
}

} // verus!
