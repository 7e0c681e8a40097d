//! Pricing and liquidity formulas of a single constant-product pool.
use vstd::arithmetic::div_mod::{
    lemma_div_by_multiple_is_strongly_ordered, lemma_div_is_ordered, lemma_div_multiples_vanish,
    lemma_div_is_ordered_by_denominator, lemma_div_pos_is_pos, lemma_fundamental_div_mod,
    lemma_mod_pos_bound,
};
use vstd::prelude::*;

use crate::error::ForgeError;
use crate::fixed_point::{amount_add, amount_div, amount_mul, fits, mul_div_floor};

verus! {

/// One liquidity pool. `token0 < token1` is the canonical order of its assets.
#[derive(Clone, Copy, Debug, PartialEq, Eq, Structural)]
pub struct Pair {
    pub token0: u64,
    pub token1: u64,
    pub reserve0: i128,
    pub reserve1: i128,
    pub total_supply: i128,
}

/// The identifier of a pool: its two tokens in canonical order.
#[derive(Clone, Copy, Debug, PartialEq, Eq, Structural)]
pub struct PairId {
    pub token0: u64,
    pub token1: u64,
}

/// Either a pool is empty (no reserves, no shares), or it holds both assets
/// and has shares outstanding.
pub open spec fn pool_state_valid(r0: int, r1: int, supply: int) -> bool {
    ||| (supply == 0 && r0 == 0 && r1 == 0)
    ||| (supply > 0 && r0 > 0 && r1 > 0)
}

impl Pair {
    pub open spec fn valid(self) -> bool {
        &&& self.token0 < self.token1
        &&& pool_state_valid(self.reserve0 as int, self.reserve1 as int, self.total_supply as int)
    }

    pub open spec fn id(self) -> PairId {
        PairId { token0: self.token0, token1: self.token1 }
    }
}

/// The canonical identifier of the pool between two distinct tokens.
pub open spec fn canonical(a: u64, b: u64) -> PairId {
    if a < b {
        PairId { token0: a, token1: b }
    } else {
        PairId { token0: b, token1: a }
    }
}

/// Orders two token identifiers into a pool identifier; the argument order does not matter.
pub fn canonical_pair_id(a: u64, b: u64) -> (r: PairId)
    ensures
        r == canonical(a, b),
{
    if a < b {
        PairId { token0: a, token1: b }
    } else {
        PairId { token0: b, token1: a }
    }
}

/// The output of a swap with no fee: `amount_in * reserve_out / (reserve_in + amount_in)`,
/// rounded down. The product is exact, however wide; only the sum and the
/// quotient must fit in an amount, and the quotient always does.
pub open spec fn amount_out_result(amount_in: int, reserve_in: int, reserve_out: int) -> Result<
    i128,
    ForgeError,
> {
    if !fits(reserve_in + amount_in) {
        Err(ForgeError::Overflow)
    } else if reserve_in + amount_in == 0 {
        Err(ForgeError::DivisionByZero)
    } else {
        Ok((amount_in * reserve_out / (reserve_in + amount_in)) as i128)
    }
}

/// Computes the constant-product output of one hop.
pub fn get_amount_out(amount_in: i128, reserve_in: i128, reserve_out: i128) -> (r: Result<
    i128,
    ForgeError,
>)
    requires
        amount_in >= 0,
        reserve_in >= 0,
        reserve_out >= 0,
    ensures
        r == amount_out_result(amount_in as int, reserve_in as int, reserve_out as int),
        r matches Ok(out) ==> 0 <= out <= reserve_out,
{
    let denominator = match amount_add(reserve_in, amount_in) {
        Ok(v) => v,
        Err(e) => return Err(e),
    };
    if denominator == 0 {
        return Err(ForgeError::DivisionByZero);
    }
    let out = mul_div_floor(amount_in as u128, reserve_out as u128, denominator as u128);
    proof {
        lemma_div_pos_is_pos((amount_in as int) * (reserve_out as int), denominator as int);
        assert((amount_in as int) * (reserve_out as int) >= 0) by (nonlinear_arith)
            requires
                amount_in >= 0,
                reserve_out >= 0,
        ;
    }
    Ok(out as i128)
}

/// A swap into a pool that holds both assets never drains the output side,
/// never lowers the product of the reserves, and pays out something whenever
/// `amount_in * reserve_out` reaches `reserve_in + amount_in`.
pub proof fn lemma_swap_output_bounds(amount_in: i128, reserve_in: i128, reserve_out: i128)
    requires
        amount_in > 0,
        reserve_in > 0,
        reserve_out > 0,
        amount_out_result(amount_in as int, reserve_in as int, reserve_out as int) is Ok,
    ensures
        ({
            let out = amount_out_result(amount_in as int, reserve_in as int, reserve_out as int)->Ok_0 as int;
            &&& 0 <= out < reserve_out
            &&& (reserve_in + amount_in) * (reserve_out - out) >= reserve_in * reserve_out
            &&& amount_in * reserve_out >= reserve_in + amount_in ==> out > 0
        }),
{
    let n = (amount_in as int) * (reserve_out as int);
    let d = reserve_in + amount_in;
    let out = n / d;
    assert(n > 0) by (nonlinear_arith)
        requires
            amount_in > 0,
            reserve_out > 0,
            n == amount_in * reserve_out,
    ;
    lemma_div_pos_is_pos(n, d);
    assert(n < reserve_out * d) by (nonlinear_arith)
        requires
            n == amount_in * reserve_out,
            d == reserve_in + amount_in,
            reserve_in > 0,
            reserve_out > 0,
    ;
    lemma_div_by_multiple_is_strongly_ordered(n, reserve_out * d, reserve_out as int, d);
    lemma_div_multiples_vanish(reserve_out as int, d);
    assert((reserve_out * d) / d == reserve_out) by (nonlinear_arith)
        requires
            (d * reserve_out) / d == reserve_out,
    ;
    lemma_fundamental_div_mod(n, d);
    lemma_mod_pos_bound(n, d);
    assert(d * (reserve_out - out) >= reserve_in * reserve_out) by (nonlinear_arith)
        requires
            n == d * out + n % d,
            n % d >= 0,
            n == amount_in * reserve_out,
            d == reserve_in + amount_in,
    ;
    if n >= d {
        lemma_div_is_ordered(d, n, d);
        lemma_div_multiples_vanish(1, d);
    }
}

/// The integer square root: the `r >= 0` with `r * r <= n < (r + 1) * (r + 1)`.
pub open spec fn isqrt(n: int) -> int {
    choose|r: int| is_root(n, r)
}

pub open spec fn is_root(n: int, r: int) -> bool {
    0 <= r && r * r <= n < (r + 1) * (r + 1)
}

proof fn lemma_root_unique(n: int, r: int, s: int)
    requires
        is_root(n, r),
        is_root(n, s),
    ensures
        r == s,
{
    if r < s {
        assert((r + 1) * (r + 1) <= s * s) by (nonlinear_arith)
            requires
                0 <= r,
                r + 1 <= s,
        ;
    } else if s < r {
        assert((s + 1) * (s + 1) <= r * r) by (nonlinear_arith)
            requires
                0 <= s,
                s + 1 <= r,
        ;
    }
}

/// The geometric mean of two positive amounts, rounded down: the integer
/// square root of `a * b`, found by bisection between the smaller and the
/// larger amount. The product is never formed: `mid * mid <= a * b` is decided
/// as `mid <= a * b / mid`, which the exact wide division gives.
pub fn geometric_mean(a: i128, b: i128) -> (r: i128)
    requires
        a > 0,
        b > 0,
    ensures
        r == isqrt(a * b),
        is_root(a * b, r as int),
{
    let (small, large) = if a <= b {
        (a as u128, b as u128)
    } else {
        (b as u128, a as u128)
    };
    let ghost n = a * b;
    assert(small * large == n) by (nonlinear_arith)
        requires
            (small == a && large == b) || (small == b && large == a),
            n == a * b,
    ;
    let mut lo: u128 = small;
    let mut hi: u128 = large + 1;
    assert(lo * lo <= n && n < hi * hi) by (nonlinear_arith)
        requires
            0 < small <= large,
            small * large == n,
            lo == small,
            hi == large + 1,
    ;
    while hi - lo > 1
        invariant
            0 < small <= lo < hi <= large + 1,
            large < 0x8000_0000_0000_0000_0000_0000_0000_0000u128,
            small * large == n,
            lo * lo <= n < hi * hi,
        decreases hi - lo,
    {
        let mid: u128 = lo + (hi - lo) / 2;
        let q = mul_div_floor(small, large, mid);
        proof {
            lemma_fundamental_div_mod(n, mid as int);
            lemma_mod_pos_bound(n, mid as int);
        }
        if mid <= q {
            assert(mid * mid <= n) by (nonlinear_arith)
                requires
                    mid <= q,
                    mid > 0,
                    n == mid * q + n % (mid as int),
                    n % (mid as int) >= 0,
            ;
            lo = mid;
        } else {
            assert(n < mid * mid) by (nonlinear_arith)
                requires
                    mid >= q + 1,
                    mid > 0,
                    n == mid * q + n % (mid as int),
                    n % (mid as int) < mid,
            ;
            hi = mid;
        }
    }
    assert(hi == lo + 1);
    proof {
        lemma_root_unique(n, lo as int, isqrt(n));
    }
    lo as i128
}

/// `n / d` for a non-negative numerator and a positive divisor.
pub fn floor_div(n: i128, d: i128) -> (r: i128)
    requires
        n >= 0,
        d > 0,
    ensures
        r == n / d,
        0 <= r <= n,
{
    proof {
        lemma_div_pos_is_pos(n as int, d as int);
        lemma_div_is_ordered_by_denominator(n as int, 1, d as int);
    }
    match amount_div(n, d) {
        Ok(q) => q,
        Err(_) => 0,
    }
}

/// Shares minted for depositing `amount_a` and `amount_b` into a pool that
/// already has shares: the smaller of the two proportional claims, rounded
/// down. A deposit too small to earn a whole share mints none.
pub open spec fn mint_result(
    amount_a: int,
    amount_b: int,
    reserve_a: int,
    reserve_b: int,
    supply: int,
) -> Result<(i128, i128, i128), ForgeError> {
    if !fits(amount_a * supply) || !fits(amount_b * supply) {
        Err(ForgeError::Overflow)
    } else {
        let share_a = amount_a * supply / reserve_a;
        let share_b = amount_b * supply / reserve_b;
        let shares = if share_a <= share_b { share_a } else { share_b };
        Ok((amount_a as i128, amount_b as i128, shares as i128))
    }
}

/// The amounts taken and the shares minted when `a_desired` and `b_desired` are
/// offered to a pool with reserves `reserve_a`, `reserve_b` and `supply` shares.
/// An empty pool takes both amounts and mints their geometric mean, rounded
/// down; otherwise the deposit keeps the pool's ratio, with whichever side
/// binds taken in full. Either way, both amounts taken must reach their minimums.
pub open spec fn add_amounts_result(
    reserve_a: int,
    reserve_b: int,
    supply: int,
    a_desired: int,
    b_desired: int,
    a_min: int,
    b_min: int,
) -> Result<(i128, i128, i128), ForgeError> {
    if supply == 0 {
        if a_desired < a_min || b_desired < b_min {
            Err(ForgeError::InsufficientLiquidity)
        } else {
            Ok((a_desired as i128, b_desired as i128, isqrt(a_desired * b_desired) as i128))
        }
    } else if !fits(a_desired * reserve_b) {
        Err(ForgeError::Overflow)
    } else {
        let b_optimal = a_desired * reserve_b / reserve_a;
        if b_optimal <= b_desired {
            if a_desired < a_min || b_optimal < b_min {
                Err(ForgeError::InsufficientLiquidity)
            } else {
                mint_result(a_desired, b_optimal, reserve_a, reserve_b, supply)
            }
        } else if !fits(b_desired * reserve_a) {
            Err(ForgeError::Overflow)
        } else {
            let a_optimal = b_desired * reserve_a / reserve_b;
            if a_optimal < a_min || b_desired < b_min {
                Err(ForgeError::InsufficientLiquidity)
            } else {
                mint_result(a_optimal, b_desired, reserve_a, reserve_b, supply)
            }
        }
    }
}

fn mint_shares(amount_a: i128, amount_b: i128, reserve_a: i128, reserve_b: i128, supply: i128) -> (r:
    Result<(i128, i128, i128), ForgeError>)
    requires
        amount_a >= 0,
        amount_b >= 0,
        reserve_a > 0,
        reserve_b > 0,
        supply > 0,
    ensures
        r == mint_result(
            amount_a as int,
            amount_b as int,
            reserve_a as int,
            reserve_b as int,
            supply as int,
        ),
{
    let claim_a = match amount_mul(amount_a, supply) {
        Ok(v) => v,
        Err(e) => return Err(e),
    };
    let claim_b = match amount_mul(amount_b, supply) {
        Ok(v) => v,
        Err(e) => return Err(e),
    };
    proof {
        assert(claim_a >= 0) by (nonlinear_arith)
            requires
                claim_a == amount_a * supply,
                amount_a >= 0,
                supply > 0,
        ;
        assert(claim_b >= 0) by (nonlinear_arith)
            requires
                claim_b == amount_b * supply,
                amount_b >= 0,
                supply > 0,
        ;
    }
    let share_a = floor_div(claim_a, reserve_a);
    let share_b = floor_div(claim_b, reserve_b);
    let shares = if share_a <= share_b {
        share_a
    } else {
        share_b
    };
    Ok((amount_a, amount_b, shares))
}

/// Works out a deposit into a pool whose reserves are given in the caller's
/// token order.
pub fn quote_add_liquidity(
    reserve_a: i128,
    reserve_b: i128,
    supply: i128,
    a_desired: i128,
    b_desired: i128,
    a_min: i128,
    b_min: i128,
) -> (r: Result<(i128, i128, i128), ForgeError>)
    requires
        pool_state_valid(reserve_a as int, reserve_b as int, supply as int),
        a_desired > 0,
        b_desired > 0,
    ensures
        r == add_amounts_result(
            reserve_a as int,
            reserve_b as int,
            supply as int,
            a_desired as int,
            b_desired as int,
            a_min as int,
            b_min as int,
        ),
        r matches Ok((a, b, s)) ==> a >= 0 && b >= 0 && s >= 0 && (supply == 0 ==> s > 0),
{
    if supply == 0 {
        if a_desired < a_min || b_desired < b_min {
            return Err(ForgeError::InsufficientLiquidity);
        }
        let root = geometric_mean(a_desired, b_desired);
        proof {
            assert(a_desired * b_desired >= 1) by (nonlinear_arith)
                requires
                    a_desired > 0,
                    b_desired > 0,
            ;
            assert(root > 0) by (nonlinear_arith)
                requires
                    a_desired * b_desired >= 1,
                    0 <= root,
                    a_desired * b_desired < (root + 1) * (root + 1),
            ;
        }
        return Ok((a_desired, b_desired, root));
    }
    let scaled_b = match amount_mul(a_desired, reserve_b) {
        Ok(v) => v,
        Err(e) => return Err(e),
    };
    proof {
        assert(scaled_b >= 0) by (nonlinear_arith)
            requires
                scaled_b == a_desired * reserve_b,
                a_desired > 0,
                reserve_b > 0,
        ;
    }
    let b_optimal = floor_div(scaled_b, reserve_a);
    if b_optimal <= b_desired {
        if a_desired < a_min || b_optimal < b_min {
            return Err(ForgeError::InsufficientLiquidity);
        }
        mint_shares(a_desired, b_optimal, reserve_a, reserve_b, supply)
    } else {
        let scaled_a = match amount_mul(b_desired, reserve_a) {
            Ok(v) => v,
            Err(e) => return Err(e),
        };
        proof {
            assert(scaled_a >= 0) by (nonlinear_arith)
                requires
                    scaled_a == b_desired * reserve_a,
                    b_desired > 0,
                    reserve_a > 0,
            ;
        }
        let a_optimal = floor_div(scaled_a, reserve_b);
        if a_optimal < a_min || b_desired < b_min {
            return Err(ForgeError::InsufficientLiquidity);
        }
        mint_shares(a_optimal, b_desired, reserve_a, reserve_b, supply)
    }
}

/// The amounts paid out for burning `shares` of a pool: each reserve's
/// proportional part, rounded down. Burning no shares or more than the supply
/// fails, and so does a payout below the caller's minimum on either side.
pub open spec fn remove_amounts_result(
    reserve_a: int,
    reserve_b: int,
    supply: int,
    shares: int,
    a_min: int,
    b_min: int,
) -> Result<(i128, i128), ForgeError> {
    if shares <= 0 {
        Err(ForgeError::InvalidAmount)
    } else if shares > supply {
        Err(ForgeError::InsufficientLiquidity)
    } else if !fits(shares * reserve_a) || !fits(shares * reserve_b) {
        Err(ForgeError::Overflow)
    } else {
        let amount_a = shares * reserve_a / supply;
        let amount_b = shares * reserve_b / supply;
        if amount_a < a_min || amount_b < b_min {
            Err(ForgeError::InsufficientLiquidity)
        } else {
            Ok((amount_a as i128, amount_b as i128))
        }
    }
}

/// Works out a withdrawal of `shares` from a pool whose reserves are given in
/// the caller's token order.
pub fn quote_remove_liquidity(
    reserve_a: i128,
    reserve_b: i128,
    supply: i128,
    shares: i128,
    a_min: i128,
    b_min: i128,
) -> (r: Result<(i128, i128), ForgeError>)
    requires
        pool_state_valid(reserve_a as int, reserve_b as int, supply as int),
    ensures
        r == remove_amounts_result(
            reserve_a as int,
            reserve_b as int,
            supply as int,
            shares as int,
            a_min as int,
            b_min as int,
        ),
        r matches Ok((a, b)) ==> {
            &&& 0 <= a <= reserve_a
            &&& 0 <= b <= reserve_b
            &&& shares == supply ==> a == reserve_a && b == reserve_b
            &&& shares < supply ==> a < reserve_a && b < reserve_b
        },
{
    if shares <= 0 {
        return Err(ForgeError::InvalidAmount);
    }
    if shares > supply {
        return Err(ForgeError::InsufficientLiquidity);
    }
    let claim_a = match amount_mul(shares, reserve_a) {
        Ok(v) => v,
        Err(e) => return Err(e),
    };
    let claim_b = match amount_mul(shares, reserve_b) {
        Ok(v) => v,
        Err(e) => return Err(e),
    };
    proof {
        assert(claim_a >= 0 && claim_b >= 0) by (nonlinear_arith)
            requires
                claim_a == shares * reserve_a,
                claim_b == shares * reserve_b,
                shares > 0,
                reserve_a >= 0,
                reserve_b >= 0,
        ;
    }
    let amount_a = floor_div(claim_a, supply);
    let amount_b = floor_div(claim_b, supply);
    proof {
        lemma_withdrawal_bounded(shares as int, reserve_a as int, supply as int);
        lemma_withdrawal_bounded(shares as int, reserve_b as int, supply as int);
    }
    if amount_a < a_min || amount_b < b_min {
        return Err(ForgeError::InsufficientLiquidity);
    }
    Ok((amount_a, amount_b))
}

proof fn lemma_withdrawal_bounded(shares: int, reserve: int, supply: int)
    requires
        0 < shares <= supply,
        reserve >= 0,
    ensures
        shares * reserve / supply <= reserve,
        shares == supply ==> shares * reserve / supply == reserve,
        shares < supply && reserve > 0 ==> shares * reserve / supply < reserve,
{
    lemma_div_multiples_vanish(reserve, supply);
    assert(shares * reserve <= reserve * supply) by (nonlinear_arith)
        requires
            0 < shares <= supply,
            reserve >= 0,
    ;
    assert(supply * reserve == reserve * supply) by (nonlinear_arith);
    lemma_div_is_ordered(shares * reserve, reserve * supply, supply);
    if shares < supply && reserve > 0 {
        assert(shares * reserve < reserve * supply) by (nonlinear_arith)
            requires
                0 < shares < supply,
                reserve > 0,
        ;
        lemma_div_by_multiple_is_strongly_ordered(shares * reserve, reserve * supply, reserve, supply);
    }
}

proof fn lemma_share_claim_bounded(shares: int, amount: int, supply: int, reserve: int)
    requires
        0 <= shares <= amount * supply / reserve,
        reserve > 0,
        amount >= 0,
        supply > 0,
    ensures
        shares * (reserve + amount) / (supply + shares) <= amount,
{
    let n = amount * supply;
    let q = n / reserve;
    lemma_fundamental_div_mod(n, reserve);
    lemma_mod_pos_bound(n, reserve);
    let d = supply + shares;
    let x = shares * (reserve + amount);
    assert(x <= amount * d) by (nonlinear_arith)
        requires
            n == reserve * q + n % reserve,
            n % reserve >= 0,
            n == amount * supply,
            0 <= shares <= q,
            reserve > 0,
            x == shares * (reserve + amount),
            d == supply + shares,
    ;
    lemma_div_is_ordered(x, amount * d, d);
    lemma_div_multiples_vanish(amount, d);
    assert(amount * d == d * amount) by (nonlinear_arith);
}

/// When `shares` is the rounded-down claim of `amount` on a pool, burning them
/// again loses at most one unit more than the reserve behind one share.
proof fn lemma_share_claim_loss(shares: int, amount: int, supply: int, reserve: int)
    requires
        shares == amount * supply / reserve,
        reserve > 0,
        amount >= 0,
        supply > 0,
    ensures
        amount - shares * (reserve + amount) / (supply + shares) <= (reserve + amount) / (supply
            + shares) + 1,
{
    let n = amount * supply;
    lemma_fundamental_div_mod(n, reserve);
    lemma_mod_pos_bound(n, reserve);
    lemma_div_pos_is_pos(n, reserve);
    let d = supply + shares;
    let x = shares * (reserve + amount);
    let back = x / d;
    lemma_fundamental_div_mod(x, d);
    lemma_mod_pos_bound(x, d);
    let total = reserve + amount;
    lemma_fundamental_div_mod(total, d);
    lemma_mod_pos_bound(total, d);
    assert(x >= amount * d - reserve + 1) by (nonlinear_arith)
        requires
            n == reserve * shares + n % reserve,
            n % reserve < reserve,
            n == amount * supply,
            x == shares * (reserve + amount),
            d == supply + shares,
    ;
    assert(d * (amount - back - 1) < reserve) by (nonlinear_arith)
        requires
            x == d * back + x % d,
            x % d < d,
            x >= amount * d - reserve + 1,
    ;
    if amount - back - 1 > total / d {
        assert(d * (amount - back - 1) >= total) by (nonlinear_arith)
            requires
                amount - back - 1 >= total / d + 1,
                d > 0,
                total == d * (total / d) + total % d,
                total % d < d,
        ;
    }
}

/// Depositing into a pool and then burning the shares that the deposit minted
/// never pays out more than was deposited, and from an empty pool pays back
/// exactly the deposit. Into a pool with shares, the deposit's shares are the
/// rounded-down claim of one side, and on that side the round trip loses at
/// most one unit more than the reserve behind one share.
pub proof fn lemma_liquidity_round_trip(
    reserve_a: i128,
    reserve_b: i128,
    supply: i128,
    a_desired: i128,
    b_desired: i128,
    a_min: i128,
    b_min: i128,
)
    requires
        pool_state_valid(reserve_a as int, reserve_b as int, supply as int),
        a_desired > 0,
        b_desired > 0,
        add_amounts_result(
            reserve_a as int,
            reserve_b as int,
            supply as int,
            a_desired as int,
            b_desired as int,
            a_min as int,
            b_min as int,
        ) is Ok,
    ensures
        ({
            let (a, b, s) = add_amounts_result(
                reserve_a as int,
                reserve_b as int,
                supply as int,
                a_desired as int,
                b_desired as int,
                a_min as int,
                b_min as int,
            )->Ok_0;
            &&& match remove_amounts_result(
                reserve_a + a,
                reserve_b + b,
                supply + s,
                s as int,
                0,
                0,
            ) {
                Ok((a_back, b_back)) => {
                    &&& a_back <= a
                    &&& b_back <= b
                    &&& supply == 0 ==> a_back == a && b_back == b
                    &&& supply > 0 && s == a * supply / (reserve_a as int) ==> a - a_back <= (
                    reserve_a + a) / (supply + s) + 1
                    &&& supply > 0 && s == b * supply / (reserve_b as int) ==> b - b_back <= (
                    reserve_b + b) / (supply + s) + 1
                },
                Err(_) => true,
            }
            &&& supply > 0 ==> s == a * supply / (reserve_a as int) || s == b * supply / (
            reserve_b as int)
        }),
{
    let (a, b, s) = add_amounts_result(
        reserve_a as int,
        reserve_b as int,
        supply as int,
        a_desired as int,
        b_desired as int,
        a_min as int,
        b_min as int,
    )->Ok_0;
    if s > 0 {
        if supply != 0 {
            let b_optimal = a_desired * reserve_b / (reserve_a as int);
            if b_optimal <= b_desired {
                assert(a == a_desired && b == b_optimal);
            } else {
                let a_optimal = b_desired * reserve_a / (reserve_b as int);
                assert(a == a_optimal && b == b_desired);
            }
            assert(s <= a * supply / (reserve_a as int));
            assert(s <= b * supply / (reserve_b as int));
            if s == a * supply / (reserve_a as int) {
                lemma_share_claim_loss(s as int, a as int, supply as int, reserve_a as int);
            }
            if s == b * supply / (reserve_b as int) {
                lemma_share_claim_loss(s as int, b as int, supply as int, reserve_b as int);
            }
        }
        if supply == 0 {
            lemma_div_multiples_vanish(a as int, s as int);
            lemma_div_multiples_vanish(b as int, s as int);
        } else {
            lemma_share_claim_bounded(s as int, a as int, supply as int, reserve_a as int);
            lemma_share_claim_bounded(s as int, b as int, supply as int, reserve_b as int);
        }
    }
}

/// The first position at or after `k` that holds the pool `id`.
pub open spec fn pair_index_from(pairs: Seq<Pair>, id: PairId, k: int) -> Option<int>
    decreases pairs.len() - k,
{
    if k < 0 || k >= pairs.len() {
        None
    } else if pairs[k].id() == id {
        Some(k)
    } else {
        pair_index_from(pairs, id, k + 1)
    }
}

/// The position of the pool `id`, if there is one.
pub open spec fn pair_index(pairs: Seq<Pair>, id: PairId) -> Option<int> {
    pair_index_from(pairs, id, 0)
}

/// Looks up the position of the pool `id`.
pub fn find_pair(pairs: &Vec<Pair>, id: PairId) -> (r: Option<usize>)
    ensures
        match r {
            Some(i) => pair_index(pairs@, id) == Some(i as int),
            None => pair_index(pairs@, id) is None,
        },
{
    let mut i: usize = 0;
    while i < pairs.len()
        invariant
            i <= pairs@.len(),
            pair_index(pairs@, id) == pair_index_from(pairs@, id, i as int),
        decreases pairs@.len() - i,
    {
        if pairs[i].token0 == id.token0 && pairs[i].token1 == id.token1 {
            return Some(i);
        }
        i = i + 1;
    }
    None
}

/// No two pools have the same identifier.
pub open spec fn pair_ids_distinct(pairs: Seq<Pair>) -> bool {
    forall|i: int, j: int|
        #![trigger pairs[i], pairs[j]]
        0 <= i < j < pairs.len() ==> pairs[i].id() != pairs[j].id()
}

/// The pools of `b` are those of `a`, in the same places, reserves aside.
pub open spec fn same_ids(a: Seq<Pair>, b: Seq<Pair>) -> bool {
    &&& a.len() == b.len()
    &&& forall|i: int| 0 <= i < a.len() ==> #[trigger] a[i].id() == b[i].id()
}

/// Whether no two pools in the list share an identifier.
pub fn pair_ids_are_distinct(pairs: &Vec<Pair>) -> (r: bool)
    ensures
        r == pair_ids_distinct(pairs@),
{
    let mut j: usize = 0;
    while j < pairs.len()
        invariant
            j <= pairs@.len(),
            forall|a: int, b: int|
                #![trigger pairs@[a], pairs@[b]]
                0 <= a < b < j ==> pairs@[a].id() != pairs@[b].id(),
        decreases pairs@.len() - j,
    {
        let mut i: usize = 0;
        while i < j
            invariant
                i <= j < pairs@.len(),
                forall|a: int| 0 <= a < i ==> #[trigger] pairs@[a].id() != pairs@[j as int].id(),
            decreases j - i,
        {
            if pairs[i].token0 == pairs[j].token0 && pairs[i].token1 == pairs[j].token1 {
                assert(pairs@[i as int].id() == pairs@[j as int].id());
                return false;
            }
            i = i + 1;
        }
        assert forall|a: int, b: int| 0 <= a < b < j + 1 implies pairs@[a].id()
            != pairs@[b].id() by {
            if b == j {
                assert(pairs@[a].id() != pairs@[j as int].id());
            }
        }
        j = j + 1;
    }
    true
}

/// Pools moved by no operation stay distinct.
pub proof fn lemma_same_ids_distinct(a: Seq<Pair>, b: Seq<Pair>)
    requires
        same_ids(a, b),
        pair_ids_distinct(a),
    ensures
        pair_ids_distinct(b),
{
    assert forall|i: int, j: int| 0 <= i < j < b.len() implies b[i].id() != b[j].id() by {
        assert(a[i].id() == b[i].id());
        assert(a[j].id() == b[j].id());
        assert(a[i] == a[i] && a[j] == a[j]);
    }
}

/// A lookup that finds nothing from `k` on means no pool from `k` on has that id.
pub proof fn lemma_pair_index_absent(pairs: Seq<Pair>, id: PairId, k: int)
    requires
        0 <= k,
        pair_index_from(pairs, id, k) is None,
    ensures
        forall|i: int| k <= i < pairs.len() ==> #[trigger] pairs[i].id() != id,
    decreases pairs.len() - k,
{
    if k < pairs.len() {
        lemma_pair_index_absent(pairs, id, k + 1);
    }
}

/// Appending a pool whose id is absent keeps the ids distinct.
pub proof fn lemma_push_distinct(pairs: Seq<Pair>, p: Pair)
    requires
        pair_ids_distinct(pairs),
        pair_index(pairs, p.id()) is None,
    ensures
        pair_ids_distinct(pairs.push(p)),
{
    lemma_pair_index_absent(pairs, p.id(), 0);
    let q = pairs.push(p);
    assert forall|i: int, j: int| 0 <= i < j < q.len() implies q[i].id() != q[j].id() by {
        if j < pairs.len() {
            assert(pairs[i] == q[i] && pairs[j] == q[j]);
        } else {
            assert(pairs[i].id() != p.id());
        }
    }
}

/// A found position holds the pool looked for.
pub proof fn lemma_pair_index_found(pairs: Seq<Pair>, id: PairId, k: int)
    requires
        0 <= k,
    ensures
        pair_index_from(pairs, id, k) matches Some(i) ==> k <= i < pairs.len() && pairs[i].id() == id,
    decreases pairs.len() - k,
{
    if k < pairs.len() && pairs[k].id() != id {
        lemma_pair_index_found(pairs, id, k + 1);
    }
}

/// Changing the reserves of pools moves no pool: lookups give the same positions.
pub proof fn lemma_pair_index_same_ids(a: Seq<Pair>, b: Seq<Pair>, id: PairId, k: int)
    requires
        a.len() == b.len(),
        forall|i: int| 0 <= i < a.len() ==> #[trigger] a[i].id() == b[i].id(),
    ensures
        pair_index_from(a, id, k) == pair_index_from(b, id, k),
    decreases a.len() - k,
{
    if 0 <= k < a.len() {
        lemma_pair_index_same_ids(a, b, id, k + 1);
    }
}

/// A pool appended after the others is found, unless an earlier entry has its id.
pub proof fn lemma_pair_index_push(pairs: Seq<Pair>, p: Pair, k: int)
    requires
        0 <= k <= pairs.len(),
    ensures
        pair_index_from(pairs.push(p), p.id(), k) is Some,
        pair_index_from(pairs, p.id(), k) matches Some(i) ==> pair_index_from(pairs.push(p), p.id(), k)
            == Some(i),
        pair_index_from(pairs, p.id(), k) is None ==> pair_index_from(pairs.push(p), p.id(), k)
            == Some(pairs.len() as int),
    decreases pairs.len() - k,
{
    if k < pairs.len() {
        lemma_pair_index_push(pairs, p, k + 1);
    }
}

} // verus!
