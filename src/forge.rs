//! The engine's state and its operations: pools, routing and staking together.
use vstd::prelude::*;

use crate::error::ForgeError;
use crate::fixed_point::{amount_add, fits};
use crate::pool::{
    add_amounts_result, canonical, canonical_pair_id, find_pair, lemma_liquidity_round_trip,
    lemma_pair_index_found, lemma_pair_index_push, lemma_pair_index_same_ids,
    lemma_push_distinct, lemma_same_ids_distinct, pair_ids_are_distinct, pair_ids_distinct,
    pair_index, same_ids,
    quote_add_liquidity, quote_remove_liquidity, remove_amounts_result, Pair, PairId,
};
use crate::router::{all_valid, hops_result, oriented, route};
use crate::staking::{
    elapsed_since, find_stake, lemma_rewards_linear, lemma_stake_index_absent,
    lemma_stake_index_found, reward_result, stake_accounts_are_distinct, stake_accounts_distinct,
    rewards_between, split_rewards, stake_index, Stake, StakeEntry, FEE_DIVISOR,
};

verus! {

/// The accounts that the engine was set up with.
#[derive(Clone, Copy, Debug, PartialEq, Eq, Structural)]
pub struct Config {
    pub factory: u64,
    pub router: u64,
}

/// The whole state of the engine: configuration, pools, stake records and the
/// total staked.
pub struct QuantumPiForge {
    pub config: Option<Config>,
    pub pairs: Vec<Pair>,
    pub stakes: Vec<StakeEntry>,
    pub total_staked: i128,
}

/// The engine's state as mathematical values.
pub struct ForgeModel {
    pub config: Option<Config>,
    pub pairs: Seq<Pair>,
    pub stakes: Seq<StakeEntry>,
    pub total_staked: i128,
}

impl View for QuantumPiForge {
    type V = ForgeModel;

    open spec fn view(&self) -> ForgeModel {
        ForgeModel {
            config: self.config,
            pairs: self.pairs@,
            stakes: self.stakes@,
            total_staked: self.total_staked,
        }
    }
}

impl ForgeModel {
    /// Every pool is valid and no two share an identifier, no account has two
    /// stake records, the total staked is non-negative, and so is every stake's
    /// principal and credited rewards.
    pub open spec fn wf(self) -> bool {
        &&& all_valid(self.pairs)
        &&& pair_ids_distinct(self.pairs)
        &&& stake_accounts_distinct(self.stakes)
        &&& self.total_staked >= 0
        &&& forall|i: int| 0 <= i < self.stakes.len() ==> #[trigger] self.stakes[i].stake.valid()
    }

    pub open spec fn with_pairs(self, pairs: Seq<Pair>) -> ForgeModel {
        ForgeModel { pairs, ..self }
    }
}

pub open spec fn empty_pair(id: PairId) -> Pair {
    Pair { token0: id.token0, token1: id.token1, reserve0: 0, reserve1: 0, total_supply: 0 }
}

/// Records the configuration; a later call replaces it.
pub open spec fn initialize_spec(m: ForgeModel, factory: u64, router: u64) -> ForgeModel {
    ForgeModel { config: Some(Config { factory, router }), ..m }
}

/// The pool between `a` and `b`, created empty if it does not exist yet.
pub open spec fn create_pair_spec(m: ForgeModel, a: u64, b: u64) -> (ForgeModel, Result<
    PairId,
    ForgeError,
>) {
    if m.config is None {
        (m, Err(ForgeError::NotInitialized))
    } else if a == b {
        (m, Err(ForgeError::IdenticalTokens))
    } else {
        let id = canonical(a, b);
        if pair_index(m.pairs, id) is None {
            (m.with_pairs(m.pairs.push(empty_pair(id))), Ok(id))
        } else {
            (m, Ok(id))
        }
    }
}

/// The pools with the pool `id` present, and its position.
pub open spec fn pairs_with(pairs: Seq<Pair>, id: PairId) -> (Seq<Pair>, int) {
    match pair_index(pairs, id) {
        Some(k) => (pairs, k),
        None => (pairs.push(empty_pair(id)), pairs.len() as int),
    }
}

/// `p` after `token_a`'s side received `amount_a`, the other side `amount_b`,
/// and `shares` were minted.
pub open spec fn after_deposit(p: Pair, token_a: u64, amount_a: int, amount_b: int, shares: int) -> Pair {
    if token_a == p.token0 {
        Pair {
            reserve0: (p.reserve0 + amount_a) as i128,
            reserve1: (p.reserve1 + amount_b) as i128,
            total_supply: (p.total_supply + shares) as i128,
            ..p
        }
    } else {
        Pair {
            reserve0: (p.reserve0 + amount_b) as i128,
            reserve1: (p.reserve1 + amount_a) as i128,
            total_supply: (p.total_supply + shares) as i128,
            ..p
        }
    }
}

/// `p` after `token_a`'s side paid out `amount_a`, the other side `amount_b`,
/// and `shares` were burnt.
pub open spec fn after_withdrawal(p: Pair, token_a: u64, amount_a: int, amount_b: int, shares: int) -> Pair {
    if token_a == p.token0 {
        Pair {
            reserve0: (p.reserve0 - amount_a) as i128,
            reserve1: (p.reserve1 - amount_b) as i128,
            total_supply: (p.total_supply - shares) as i128,
            ..p
        }
    } else {
        Pair {
            reserve0: (p.reserve0 - amount_b) as i128,
            reserve1: (p.reserve1 - amount_a) as i128,
            total_supply: (p.total_supply - shares) as i128,
            ..p
        }
    }
}

/// A deposit into the pool of `a` and `b`, creating the pool on first use.
/// The result is the amounts taken, in the caller's order, and the shares minted.
pub open spec fn add_liquidity_spec(
    m: ForgeModel,
    a: u64,
    b: u64,
    a_desired: i128,
    b_desired: i128,
    a_min: i128,
    b_min: i128,
    deadline: u64,
    now: u64,
) -> (ForgeModel, Result<(i128, i128, i128), ForgeError>) {
    if now > deadline {
        (m, Err(ForgeError::Expired))
    } else if m.config is None {
        (m, Err(ForgeError::NotInitialized))
    } else if a == b {
        (m, Err(ForgeError::IdenticalTokens))
    } else if a_desired <= 0 || b_desired <= 0 {
        (m, Err(ForgeError::InvalidAmount))
    } else {
        let (pairs, k) = pairs_with(m.pairs, canonical(a, b));
        let p = pairs[k];
        let (reserve_a, reserve_b) = oriented(p, a);
        match add_amounts_result(
            reserve_a,
            reserve_b,
            p.total_supply as int,
            a_desired as int,
            b_desired as int,
            a_min as int,
            b_min as int,
        ) {
            Err(e) => (m, Err(e)),
            Ok((x, y, s)) => {
                if !fits(reserve_a + x) || !fits(reserve_b + y) || !fits(p.total_supply + s) {
                    (m, Err(ForgeError::Overflow))
                } else {
                    (
                        m.with_pairs(pairs.update(k, after_deposit(p, a, x as int, y as int, s as int))),
                        Ok((x, y, s)),
                    )
                }
            },
        }
    }
}

/// Burning `shares` of the pool of `a` and `b`; the result is the amounts paid
/// out, in the caller's order.
pub open spec fn remove_liquidity_spec(
    m: ForgeModel,
    a: u64,
    b: u64,
    shares: i128,
    a_min: i128,
    b_min: i128,
    deadline: u64,
    now: u64,
) -> (ForgeModel, Result<(i128, i128), ForgeError>) {
    if now > deadline {
        (m, Err(ForgeError::Expired))
    } else if m.config is None {
        (m, Err(ForgeError::NotInitialized))
    } else if a == b {
        (m, Err(ForgeError::IdenticalTokens))
    } else {
        match pair_index(m.pairs, canonical(a, b)) {
            None => (m, Err(ForgeError::PairNotFound)),
            Some(k) => {
                let p = m.pairs[k];
                let (reserve_a, reserve_b) = oriented(p, a);
                match remove_amounts_result(
                    reserve_a,
                    reserve_b,
                    p.total_supply as int,
                    shares as int,
                    a_min as int,
                    b_min as int,
                ) {
                    Err(e) => (m, Err(e)),
                    Ok((x, y)) => (
                        m.with_pairs(
                            m.pairs.update(
                                k,
                                after_withdrawal(p, a, x as int, y as int, shares as int),
                            ),
                        ),
                        Ok((x, y)),
                    ),
                }
            },
        }
    }
}

/// A swap of exactly `amount_in` of `path[0]` along `path`, with every pool on
/// the way updated; the result is every hop's amount. A negative input fails;
/// a zero input moves nothing and is checked against `amount_out_min` like any other.
pub open spec fn swap_spec(
    m: ForgeModel,
    amount_in: i128,
    amount_out_min: i128,
    path: Seq<u64>,
    deadline: u64,
    now: u64,
) -> (ForgeModel, Result<Seq<i128>, ForgeError>) {
    if now > deadline {
        (m, Err(ForgeError::Expired))
    } else if m.config is None {
        (m, Err(ForgeError::NotInitialized))
    } else if amount_in < 0 {
        (m, Err(ForgeError::InvalidAmount))
    } else if path.len() < 2 {
        (m, Err(ForgeError::InvalidPath))
    } else {
        match hops_result(m.pairs, path, amount_in, path.len() - 1) {
            Err(e) => (m, Err(e)),
            Ok((pairs, amounts)) => {
                if amounts.last() < amount_out_min {
                    (m, Err(ForgeError::InsufficientOutputAmount))
                } else {
                    (m.with_pairs(pairs), Ok(amounts))
                }
            },
        }
    }
}

/// Adds `amount` to `user`'s stake and to the total, and restarts the
/// accrual period at `now` (never earlier than it began).
pub open spec fn stake_spec(m: ForgeModel, user: u64, amount: i128, now: u64) -> (ForgeModel, Result<
    (),
    ForgeError,
>) {
    if amount <= 0 {
        (m, Err(ForgeError::InvalidAmount))
    } else if !fits(m.total_staked + amount) {
        (m, Err(ForgeError::Overflow))
    } else {
        let total = (m.total_staked + amount) as i128;
        match stake_index(m.stakes, user) {
            None => (
                ForgeModel {
                    stakes: m.stakes.push(
                        StakeEntry { account: user, stake: Stake { amount, timestamp: now, rewards: 0 } },
                    ),
                    total_staked: total,
                    ..m
                },
                Ok(()),
            ),
            Some(k) => {
                let old = m.stakes[k].stake;
                if !fits(old.amount + amount) {
                    (m, Err(ForgeError::Overflow))
                } else {
                    let st = Stake {
                        amount: (old.amount + amount) as i128,
                        timestamp: if now >= old.timestamp { now } else { old.timestamp },
                        rewards: old.rewards,
                    };
                    (
                        ForgeModel {
                            stakes: m.stakes.update(k, StakeEntry { account: user, stake: st }),
                            total_staked: total,
                            ..m
                        },
                        Ok(()),
                    )
                }
            },
        }
    }
}

/// The rewards that `user`'s stake has accrued by `now`.
pub open spec fn rewards_spec(m: ForgeModel, user: u64, now: u64) -> Result<i128, ForgeError> {
    match stake_index(m.stakes, user) {
        None => Err(ForgeError::NoStakeFound),
        Some(k) => reward_result(
            m.stakes[k].stake.amount as int,
            elapsed_since(m.stakes[k].stake.timestamp, now),
        ),
    }
}

/// Claims the accrued rewards: one percent (rounded down) is kept as fee, the
/// rest is credited to the stake and returned, and the accrual period restarts.
pub open spec fn claim_spec(m: ForgeModel, user: u64, now: u64) -> (ForgeModel, Result<
    i128,
    ForgeError,
>) {
    match rewards_spec(m, user, now) {
        Err(e) => (m, Err(e)),
        Ok(rewards) => {
            let k = stake_index(m.stakes, user)->Some_0;
            let old = m.stakes[k].stake;
            let user_reward = rewards - rewards / FEE_DIVISOR;
            if !fits(old.rewards + user_reward) {
                (m, Err(ForgeError::Overflow))
            } else {
                let st = Stake {
                    amount: old.amount,
                    timestamp: if now >= old.timestamp { now } else { old.timestamp },
                    rewards: (old.rewards + user_reward) as i128,
                };
                (
                    ForgeModel {
                        stakes: m.stakes.update(k, StakeEntry { account: user, stake: st }),
                        ..m
                    },
                    Ok(user_reward as i128),
                )
            }
        },
    }
}

impl QuantumPiForge {
    /// An engine with no configuration, no pools and no stakes.
    pub fn new() -> (r: Self)
        ensures
            r@ == (ForgeModel {
                config: None,
                pairs: Seq::empty(),
                stakes: Seq::empty(),
                total_staked: 0,
            }),
            r@.wf(),
    {
        QuantumPiForge { config: None, pairs: Vec::new(), stakes: Vec::new(), total_staked: 0 }
    }

    /// Whether the state is well formed, as every mutating operation requires.
    pub fn is_well_formed(&self) -> (r: bool)
        ensures
            r == self@.wf(),
    {
        if self.total_staked < 0 {
            return false;
        }
        let mut i: usize = 0;
        while i < self.pairs.len()
            invariant
                i <= self.pairs@.len(),
                forall|j: int| 0 <= j < i ==> #[trigger] self.pairs@[j].valid(),
            decreases self.pairs@.len() - i,
        {
            let p = self.pairs[i];
            let empty = p.total_supply == 0 && p.reserve0 == 0 && p.reserve1 == 0;
            let active = p.total_supply > 0 && p.reserve0 > 0 && p.reserve1 > 0;
            if !(p.token0 < p.token1 && (empty || active)) {
                assert(!self.pairs@[i as int].valid());
                return false;
            }
            i = i + 1;
        }
        let mut i: usize = 0;
        while i < self.stakes.len()
            invariant
                i <= self.stakes@.len(),
                all_valid(self.pairs@),
                forall|j: int| 0 <= j < i ==> #[trigger] self.stakes@[j].stake.valid(),
            decreases self.stakes@.len() - i,
        {
            let st = self.stakes[i].stake;
            if !(st.amount >= 0 && st.rewards >= 0) {
                assert(!self@.stakes[i as int].stake.valid());
                assert(!self@.wf());
                return false;
            }
            i = i + 1;
        }
        pair_ids_are_distinct(&self.pairs) && stake_accounts_are_distinct(&self.stakes)
    }

    /// Records the factory and router accounts.
    pub fn initialize(&mut self, factory: u64, router: u64)
        requires
            old(self)@.wf(),
        ensures
            final(self)@ == initialize_spec(old(self)@, factory, router),
            final(self)@.wf(),
    {
        self.config = Some(Config { factory, router });
    }

    /// Returns the identifier of the pool between two distinct tokens,
    /// creating the pool, empty, if it does not exist yet.
    pub fn create_pair(&mut self, token_a: u64, token_b: u64) -> (r: Result<PairId, ForgeError>)
        requires
            old(self)@.wf(),
        ensures
            (final(self)@, r) == create_pair_spec(old(self)@, token_a, token_b),
            final(self)@.wf(),
    {
        if self.config.is_none() {
            return Err(ForgeError::NotInitialized);
        }
        if token_a == token_b {
            return Err(ForgeError::IdenticalTokens);
        }
        let id = canonical_pair_id(token_a, token_b);
        if find_pair(&self.pairs, id).is_none() {
            self.pairs.push(
                Pair { token0: id.token0, token1: id.token1, reserve0: 0, reserve1: 0, total_supply: 0 },
            );
            proof {
                assert(self@ == old(self)@.with_pairs(old(self)@.pairs.push(empty_pair(id))));
                assert(empty_pair(id).id() == id);
                lemma_push_distinct(old(self)@.pairs, empty_pair(id));
            }
        }
        Ok(id)
    }

    /// The pool between `token_a` and `token_b`, as stored.
    pub fn get_pair(&self, token_a: u64, token_b: u64) -> (r: Result<Pair, ForgeError>)
        ensures
            token_a == token_b ==> r == Err::<Pair, ForgeError>(ForgeError::IdenticalTokens),
            token_a != token_b ==> match pair_index(self@.pairs, canonical(token_a, token_b)) {
                None => r == Err::<Pair, ForgeError>(ForgeError::PairNotFound),
                Some(k) => r == Ok::<Pair, ForgeError>(self@.pairs[k]),
            },
    {
        if token_a == token_b {
            return Err(ForgeError::IdenticalTokens);
        }
        let id = canonical_pair_id(token_a, token_b);
        match find_pair(&self.pairs, id) {
            None => Err(ForgeError::PairNotFound),
            Some(k) => {
                proof {
                    lemma_pair_index_found(self@.pairs, id, 0);
                }
                Ok(self.pairs[k])
            },
        }
    }

    /// The reserves of the pool between `token_a` and `token_b`, in that order.
    pub fn get_reserves(&self, token_a: u64, token_b: u64) -> (r: Result<(i128, i128), ForgeError>)
        ensures
            token_a == token_b ==> r == Err::<(i128, i128), ForgeError>(ForgeError::IdenticalTokens),
            token_a != token_b ==> match pair_index(self@.pairs, canonical(token_a, token_b)) {
                None => r == Err::<(i128, i128), ForgeError>(ForgeError::PairNotFound),
                Some(k) => r matches Ok((x, y)) && (x as int, y as int) == oriented(
                    self@.pairs[k],
                    token_a,
                ),
            },
    {
        if token_a == token_b {
            return Err(ForgeError::IdenticalTokens);
        }
        let id = canonical_pair_id(token_a, token_b);
        match find_pair(&self.pairs, id) {
            None => Err(ForgeError::PairNotFound),
            Some(k) => {
                proof {
                    lemma_pair_index_found(self@.pairs, id, 0);
                }
                let p = self.pairs[k];
                if token_a == p.token0 {
                    Ok((p.reserve0, p.reserve1))
                } else {
                    Ok((p.reserve1, p.reserve0))
                }
            },
        }
    }

    /// Deposits into the pool of `token_a` and `token_b` (created on first
    /// use) at the pool's current ratio, and mints shares for it.
    pub fn add_liquidity(
        &mut self,
        token_a: u64,
        token_b: u64,
        amount_a_desired: i128,
        amount_b_desired: i128,
        amount_a_min: i128,
        amount_b_min: i128,
        deadline: u64,
        now: u64,
    ) -> (r: Result<(i128, i128, i128), ForgeError>)
        requires
            old(self)@.wf(),
        ensures
            (final(self)@, r) == add_liquidity_spec(
                old(self)@,
                token_a,
                token_b,
                amount_a_desired,
                amount_b_desired,
                amount_a_min,
                amount_b_min,
                deadline,
                now,
            ),
            final(self)@.wf(),
    {
        if now > deadline {
            return Err(ForgeError::Expired);
        }
        if self.config.is_none() {
            return Err(ForgeError::NotInitialized);
        }
        if token_a == token_b {
            return Err(ForgeError::IdenticalTokens);
        }
        if amount_a_desired <= 0 || amount_b_desired <= 0 {
            return Err(ForgeError::InvalidAmount);
        }
        let id = canonical_pair_id(token_a, token_b);
        let found = find_pair(&self.pairs, id);
        proof {
            lemma_pair_index_found(self@.pairs, id, 0);
        }
        let (p, k) = match found {
            Some(k) => (self.pairs[k], k),
            None => (
                Pair { token0: id.token0, token1: id.token1, reserve0: 0, reserve1: 0, total_supply: 0 },
                self.pairs.len(),
            ),
        };
        let ghost (pairs0, k0) = pairs_with(old(self)@.pairs, id);
        assert(pairs0[k0] == p && k0 == k);
        assert(p.valid());
        let forward = token_a == p.token0;
        let (reserve_a, reserve_b) = if forward {
            (p.reserve0, p.reserve1)
        } else {
            (p.reserve1, p.reserve0)
        };
        let (x, y, s) = match quote_add_liquidity(
            reserve_a,
            reserve_b,
            p.total_supply,
            amount_a_desired,
            amount_b_desired,
            amount_a_min,
            amount_b_min,
        ) {
            Ok(v) => v,
            Err(e) => return Err(e),
        };
        let new_a = match amount_add(reserve_a, x) {
            Ok(v) => v,
            Err(e) => return Err(e),
        };
        let new_b = match amount_add(reserve_b, y) {
            Ok(v) => v,
            Err(e) => return Err(e),
        };
        let new_supply = match amount_add(p.total_supply, s) {
            Ok(v) => v,
            Err(e) => return Err(e),
        };
        let updated = if forward {
            Pair {
                token0: p.token0,
                token1: p.token1,
                reserve0: new_a,
                reserve1: new_b,
                total_supply: new_supply,
            }
        } else {
            Pair {
                token0: p.token0,
                token1: p.token1,
                reserve0: new_b,
                reserve1: new_a,
                total_supply: new_supply,
            }
        };
        assert(updated == after_deposit(p, token_a, x as int, y as int, s as int));
        assert(updated.valid());
        if found.is_none() {
            proof {
                assert(updated.id() == id);
                lemma_push_distinct(old(self)@.pairs, updated);
            }
            self.pairs.push(updated);
            assert(self.pairs@ =~= pairs0.update(k0, updated));
        } else {
            self.pairs.set(k, updated);
            proof {
                assert(same_ids(old(self)@.pairs, self@.pairs));
                lemma_same_ids_distinct(old(self)@.pairs, self@.pairs);
            }
        }
        proof {
            assert forall|i: int| 0 <= i < self@.pairs.len() implies #[trigger] self@.pairs[i].valid() by {
                if i != k {
                    assert(old(self)@.pairs[i].valid());
                }
            }
        }
        Ok((x, y, s))
    }

    /// Burns `shares` of the pool of `token_a` and `token_b` and pays out the
    /// proportional part of each reserve.
    pub fn remove_liquidity(
        &mut self,
        token_a: u64,
        token_b: u64,
        shares: i128,
        amount_a_min: i128,
        amount_b_min: i128,
        deadline: u64,
        now: u64,
    ) -> (r: Result<(i128, i128), ForgeError>)
        requires
            old(self)@.wf(),
        ensures
            (final(self)@, r) == remove_liquidity_spec(
                old(self)@,
                token_a,
                token_b,
                shares,
                amount_a_min,
                amount_b_min,
                deadline,
                now,
            ),
            final(self)@.wf(),
    {
        if now > deadline {
            return Err(ForgeError::Expired);
        }
        if self.config.is_none() {
            return Err(ForgeError::NotInitialized);
        }
        if token_a == token_b {
            return Err(ForgeError::IdenticalTokens);
        }
        let id = canonical_pair_id(token_a, token_b);
        let k = match find_pair(&self.pairs, id) {
            Some(k) => k,
            None => return Err(ForgeError::PairNotFound),
        };
        proof {
            lemma_pair_index_found(self@.pairs, id, 0);
        }
        let p = self.pairs[k];
        assert(p.valid());
        let forward = token_a == p.token0;
        let (reserve_a, reserve_b) = if forward {
            (p.reserve0, p.reserve1)
        } else {
            (p.reserve1, p.reserve0)
        };
        let (x, y) = match quote_remove_liquidity(
            reserve_a,
            reserve_b,
            p.total_supply,
            shares,
            amount_a_min,
            amount_b_min,
        ) {
            Ok(v) => v,
            Err(e) => return Err(e),
        };
        let updated = if forward {
            Pair {
                token0: p.token0,
                token1: p.token1,
                reserve0: reserve_a - x,
                reserve1: reserve_b - y,
                total_supply: p.total_supply - shares,
            }
        } else {
            Pair {
                token0: p.token0,
                token1: p.token1,
                reserve0: reserve_b - y,
                reserve1: reserve_a - x,
                total_supply: p.total_supply - shares,
            }
        };
        assert(updated == after_withdrawal(p, token_a, x as int, y as int, shares as int));
        assert(updated.valid());
        self.pairs.set(k, updated);
        proof {
            assert(same_ids(old(self)@.pairs, self@.pairs));
            lemma_same_ids_distinct(old(self)@.pairs, self@.pairs);
            assert forall|i: int| 0 <= i < self@.pairs.len() implies #[trigger] self@.pairs[i].valid() by {
                if i != k {
                    assert(old(self)@.pairs[i].valid());
                }
            }
        }
        Ok((x, y))
    }

    /// Swaps exactly `amount_in` of `path[0]` for `path[path.len() - 1]`
    /// through the pool of each consecutive pair of tokens on `path`. Either
    /// every pool on the way is updated or, on any failure, none is.
    pub fn swap_exact_tokens_for_tokens(
        &mut self,
        amount_in: i128,
        amount_out_min: i128,
        path: Vec<u64>,
        deadline: u64,
        now: u64,
    ) -> (r: Result<Vec<i128>, ForgeError>)
        requires
            old(self)@.wf(),
        ensures
            final(self)@ == swap_spec(old(self)@, amount_in, amount_out_min, path@, deadline, now).0,
            match r {
                Ok(v) => swap_spec(old(self)@, amount_in, amount_out_min, path@, deadline, now).1
                    == Ok::<Seq<i128>, ForgeError>(v@),
                Err(e) => swap_spec(old(self)@, amount_in, amount_out_min, path@, deadline, now).1
                    == Err::<Seq<i128>, ForgeError>(e),
            },
            final(self)@.wf(),
    {
        if now > deadline {
            return Err(ForgeError::Expired);
        }
        if self.config.is_none() {
            return Err(ForgeError::NotInitialized);
        }
        if amount_in < 0 {
            return Err(ForgeError::InvalidAmount);
        }
        if path.len() < 2 {
            return Err(ForgeError::InvalidPath);
        }
        let (pairs, amounts) = match route(&self.pairs, &path, amount_in) {
            Ok(v) => v,
            Err(e) => return Err(e),
        };
        if amounts[amounts.len() - 1] < amount_out_min {
            return Err(ForgeError::InsufficientOutputAmount);
        }
        proof {
            lemma_same_ids_distinct(old(self)@.pairs, pairs@);
        }
        self.pairs = pairs;
        Ok(amounts)
    }

    /// Adds `amount` to `user`'s stake, creating the record on first use, and
    /// restarts its accrual period at `now`.
    pub fn stake(&mut self, user: u64, amount: i128, now: u64) -> (r: Result<(), ForgeError>)
        requires
            old(self)@.wf(),
        ensures
            (final(self)@, r) == stake_spec(old(self)@, user, amount, now),
            final(self)@.wf(),
    {
        if amount <= 0 {
            return Err(ForgeError::InvalidAmount);
        }
        let total = match amount_add(self.total_staked, amount) {
            Ok(v) => v,
            Err(e) => return Err(e),
        };
        match find_stake(&self.stakes, user) {
            None => {
                proof {
                    lemma_stake_index_absent(self@.stakes, user, 0);
                }
                self.stakes.push(
                    StakeEntry { account: user, stake: Stake { amount, timestamp: now, rewards: 0 } },
                );
            },
            Some(k) => {
                proof {
                    lemma_stake_index_found(self@.stakes, user, 0);
                }
                let old_stake = self.stakes[k].stake;
                let principal = match amount_add(old_stake.amount, amount) {
                    Ok(v) => v,
                    Err(e) => return Err(e),
                };
                let timestamp = if now >= old_stake.timestamp {
                    now
                } else {
                    old_stake.timestamp
                };
                self.stakes.set(
                    k,
                    StakeEntry {
                        account: user,
                        stake: Stake { amount: principal, timestamp, rewards: old_stake.rewards },
                    },
                );
                assert(old(self)@.stakes[k as int].stake.valid());
            },
        }
        self.total_staked = total;
        proof {
            let olds = old(self)@.stakes;
            let news = self@.stakes;
            assert forall|i: int, j: int| 0 <= i < j < news.len() implies news[i].account
                != news[j].account by {
                assert(forall|t: int| 0 <= t < news.len() ==> #[trigger] news[t].account == if t
                    < olds.len() {
                    olds[t].account
                } else {
                    user
                });
                if j < olds.len() {
                    assert(olds[i] == olds[i] && olds[j] == olds[j]);
                } else {
                    assert(olds[i].account != user);
                }
            }
            assert forall|i: int| 0 <= i < self@.stakes.len() implies #[trigger] self@.stakes[i].stake.valid() by {
                if i < old(self)@.stakes.len() && self@.stakes[i] == old(self)@.stakes[i] {
                    assert(old(self)@.stakes[i].stake.valid());
                }
            }
        }
        Ok(())
    }

    /// The rewards that `user`'s stake has accrued by `now`; nothing changes.
    pub fn calculate_rewards(&self, user: u64, now: u64) -> (r: Result<i128, ForgeError>)
        ensures
            r == rewards_spec(self@, user, now),
    {
        match find_stake(&self.stakes, user) {
            None => Err(ForgeError::NoStakeFound),
            Some(k) => {
                proof {
                    lemma_stake_index_found(self@.stakes, user, 0);
                }
                let st = self.stakes[k].stake;
                rewards_between(st.amount, st.timestamp, now)
            },
        }
    }

    /// Claims `user`'s accrued rewards: one percent is kept as fee, the rest
    /// is credited to the stake and returned, and accrual restarts at `now`.
    pub fn claim_rewards(&mut self, user: u64, now: u64) -> (r: Result<i128, ForgeError>)
        requires
            old(self)@.wf(),
        ensures
            (final(self)@, r) == claim_spec(old(self)@, user, now),
            final(self)@.wf(),
    {
        let k = match find_stake(&self.stakes, user) {
            None => return Err(ForgeError::NoStakeFound),
            Some(k) => k,
        };
        proof {
            lemma_stake_index_found(self@.stakes, user, 0);
        }
        let st = self.stakes[k].stake;
        assert(st.valid());
        let rewards = match rewards_between(st.amount, st.timestamp, now) {
            Ok(v) => v,
            Err(e) => return Err(e),
        };
        assert(rewards >= 0) by (nonlinear_arith)
            requires
                rewards == st.amount * 100 * elapsed_since(st.timestamp, now),
                st.amount >= 0,
                elapsed_since(st.timestamp, now) >= 0,
        ;
        let (_gas_fee, user_reward) = split_rewards(rewards);
        let credited = match amount_add(st.rewards, user_reward) {
            Ok(v) => v,
            Err(e) => return Err(e),
        };
        let timestamp = if now >= st.timestamp {
            now
        } else {
            st.timestamp
        };
        self.stakes.set(
            k,
            StakeEntry { account: user, stake: Stake { amount: st.amount, timestamp, rewards: credited } },
        );
        proof {
            assert forall|i: int| 0 <= i < self@.stakes.len() implies #[trigger] self@.stakes[i].stake.valid() by {
                if i != k {
                    assert(old(self)@.stakes[i].stake.valid());
                }
            }
        }
        Ok(user_reward)
    }

    /// The sum of all amounts staked.
    pub fn get_total_staked(&self) -> (r: i128)
        ensures
            r == self@.total_staked,
    {
        self.total_staked
    }

    /// `user`'s stake record.
    pub fn get_user_stake(&self, user: u64) -> (r: Result<Stake, ForgeError>)
        ensures
            match stake_index(self@.stakes, user) {
                None => r == Err::<Stake, ForgeError>(ForgeError::NoStakeFound),
                Some(k) => r == Ok::<Stake, ForgeError>(self@.stakes[k].stake),
            },
    {
        match find_stake(&self.stakes, user) {
            None => Err(ForgeError::NoStakeFound),
            Some(k) => {
                proof {
                    lemma_stake_index_found(self@.stakes, user, 0);
                }
                Ok(self.stakes[k].stake)
            },
        }
    }
}

/// Creating a pair that exists already returns the same identifier and changes nothing.
pub proof fn lemma_create_pair_idempotent(m: ForgeModel, a: u64, b: u64)
    ensures
        create_pair_spec(create_pair_spec(m, a, b).0, a, b) == create_pair_spec(m, a, b),
{
    if m.config is Some && a != b {
        let id = canonical(a, b);
        if pair_index(m.pairs, id) is None {
            assert(empty_pair(id).id() == id);
            lemma_pair_index_push(m.pairs, empty_pair(id), 0);
        }
    }
}

/// The order in which two tokens are named does not change which pool they denote.
pub proof fn lemma_create_pair_order_independent(m: ForgeModel, a: u64, b: u64)
    ensures
        create_pair_spec(m, a, b) == create_pair_spec(m, b, a),
{
}

/// Adding liquidity and then burning exactly the shares it minted never pays
/// out more of either token than was deposited; into a pool without shares
/// (new, or emptied), it pays back exactly the deposit. Otherwise the shares
/// are the rounded-down claim of one side, and on that side the loss is at most
/// one unit more than the reserve behind one share afterwards.
pub proof fn lemma_add_then_remove_liquidity(
    m: ForgeModel,
    a: u64,
    b: u64,
    a_desired: i128,
    b_desired: i128,
    a_min: i128,
    b_min: i128,
    deadline: u64,
    now: u64,
)
    requires
        m.wf(),
        add_liquidity_spec(m, a, b, a_desired, b_desired, a_min, b_min, deadline, now).1 is Ok,
    ensures
        ({
            let (m1, added) = add_liquidity_spec(
                m,
                a,
                b,
                a_desired,
                b_desired,
                a_min,
                b_min,
                deadline,
                now,
            );
            let (x, y, s) = added->Ok_0;
            let (pairs0, k) = pairs_with(m.pairs, canonical(a, b));
            let supply = pairs0[k].total_supply as int;
            let (reserve_a, reserve_b) = oriented(pairs0[k], a);
            &&& match remove_liquidity_spec(m1, a, b, s, 0, 0, deadline, now).1 {
                Ok((x_back, y_back)) => {
                    &&& x_back <= x
                    &&& y_back <= y
                    &&& supply == 0 ==> x_back == x && y_back == y
                    &&& supply > 0 && s == x * supply / reserve_a ==> x - x_back <= (reserve_a + x)
                        / (supply + s) + 1
                    &&& supply > 0 && s == y * supply / reserve_b ==> y - y_back <= (reserve_b + y)
                        / (supply + s) + 1
                },
                Err(_) => true,
            }
            &&& supply > 0 ==> s == x * supply / reserve_a || s == y * supply / reserve_b
        }),
{
    let id = canonical(a, b);
    let (pairs0, k) = pairs_with(m.pairs, id);
    let p = pairs0[k];
    lemma_pair_index_found(m.pairs, id, 0);
    if pair_index(m.pairs, id) is None {
        assert(empty_pair(id).id() == id);
        lemma_pair_index_push(m.pairs, empty_pair(id), 0);
    }
    assert(pair_index(pairs0, id) == Some(k));
    assert(p.valid());
    let (reserve_a, reserve_b): (i128, i128) = if a == p.token0 {
        (p.reserve0, p.reserve1)
    } else {
        (p.reserve1, p.reserve0)
    };
    let (m1, added) = add_liquidity_spec(m, a, b, a_desired, b_desired, a_min, b_min, deadline, now);
    let (x, y, s) = added->Ok_0;
    let np = after_deposit(p, a, x as int, y as int, s as int);
    assert(m1.pairs == pairs0.update(k, np));
    lemma_pair_index_same_ids(pairs0, m1.pairs, id, 0);
    assert(pair_index(m1.pairs, id) == Some(k));
    lemma_liquidity_round_trip(
        reserve_a,
        reserve_b,
        p.total_supply,
        a_desired,
        b_desired,
        a_min,
        b_min,
    );
}

/// With no claim in between, a stake earns over `2 * t` seconds exactly twice
/// what it earns over `t` seconds.
pub proof fn lemma_rewards_linear_in_time(m: ForgeModel, user: u64, t: u64)
    requires
        m.wf(),
        stake_index(m.stakes, user) is Some,
        m.stakes[stake_index(m.stakes, user)->Some_0].stake.timestamp + 2 * t <= u64::MAX,
        rewards_spec(
            m,
            user,
            (m.stakes[stake_index(m.stakes, user)->Some_0].stake.timestamp + 2 * t) as u64,
        ) is Ok,
    ensures
        ({
            let start = m.stakes[stake_index(m.stakes, user)->Some_0].stake.timestamp;
            &&& rewards_spec(m, user, (start + t) as u64) is Ok
            &&& rewards_spec(m, user, (start + 2 * t) as u64)->Ok_0 == 2 * rewards_spec(
                m,
                user,
                (start + t) as u64,
            )->Ok_0
        }),
{
    let k = stake_index(m.stakes, user)->Some_0;
    lemma_stake_index_found(m.stakes, user, 0);
    assert(m.stakes[k].stake.valid());
    lemma_rewards_linear(m.stakes[k].stake.amount, t);
}

/// A claim splits the accrued rewards exactly: the fee is one percent rounded
/// down, fee and payout add up to the rewards, and the payout is credited to
/// the stake.
pub proof fn lemma_claim_fee_split(m: ForgeModel, user: u64, now: u64)
    requires
        m.wf(),
    ensures
        claim_spec(m, user, now).1 matches Ok(user_reward) ==> {
            let rewards = rewards_spec(m, user, now)->Ok_0;
            let k = stake_index(m.stakes, user)->Some_0;
            let gas_fee = rewards / FEE_DIVISOR;
            &&& rewards_spec(m, user, now) is Ok
            &&& rewards >= 0
            &&& gas_fee + user_reward == rewards
            &&& user_reward == rewards - rewards / FEE_DIVISOR
            &&& now >= m.stakes[k].stake.timestamp ==> rewards == m.stakes[k].stake.amount * 100 * (
            now - m.stakes[k].stake.timestamp)
            &&& claim_spec(m, user, now).0.stakes[k].stake.rewards == m.stakes[k].stake.rewards
                + user_reward
        },
{
    if rewards_spec(m, user, now) is Ok {
        let k = stake_index(m.stakes, user)->Some_0;
        lemma_stake_index_found(m.stakes, user, 0);
        let st = m.stakes[k].stake;
        assert(st.valid());
        let rewards = rewards_spec(m, user, now)->Ok_0;
        assert(rewards >= 0) by (nonlinear_arith)
            requires
                rewards == st.amount * 100 * elapsed_since(st.timestamp, now),
                st.amount >= 0,
                elapsed_since(st.timestamp, now) >= 0,
        ;
    }
}

} // verus!
