//! Multi-hop routing of a swap through a chain of pools.
use vstd::arithmetic::div_mod::lemma_div_basics;
use vstd::prelude::*;

use crate::error::ForgeError;
use crate::pool::{
    amount_out_result, canonical, canonical_pair_id, find_pair, get_amount_out,
    lemma_pair_index_found, lemma_swap_output_bounds, pair_index, same_ids, Pair,
};

verus! {

/// Every pool in the list satisfies its invariant.
pub open spec fn all_valid(pairs: Seq<Pair>) -> bool {
    forall|i: int| 0 <= i < pairs.len() ==> #[trigger] pairs[i].valid()
}

/// The reserves of `p` as (input side, output side) for a swap that pays in `token_in`.
pub open spec fn oriented(p: Pair, token_in: u64) -> (int, int) {
    if token_in == p.token0 {
        (p.reserve0 as int, p.reserve1 as int)
    } else {
        (p.reserve1 as int, p.reserve0 as int)
    }
}

/// `p` after a swap that paid `amount_in` of `token_in` and took out `amount_out`.
pub open spec fn after_swap(p: Pair, token_in: u64, amount_in: int, amount_out: int) -> Pair {
    if token_in == p.token0 {
        Pair {
            token0: p.token0,
            token1: p.token1,
            reserve0: (p.reserve0 + amount_in) as i128,
            reserve1: (p.reserve1 - amount_out) as i128,
            total_supply: p.total_supply,
        }
    } else {
        Pair {
            token0: p.token0,
            token1: p.token1,
            reserve0: (p.reserve0 - amount_out) as i128,
            reserve1: (p.reserve1 + amount_in) as i128,
            total_supply: p.total_supply,
        }
    }
}

/// One hop: swap `amount_in` of `token_in` for `token_out` through their pool,
/// giving the pools afterwards and the amount out.
pub open spec fn hop_result(pairs: Seq<Pair>, token_in: u64, token_out: u64, amount_in: int) -> Result<
    (Seq<Pair>, i128),
    ForgeError,
> {
    if token_in == token_out {
        Err(ForgeError::InvalidPath)
    } else {
        match pair_index(pairs, canonical(token_in, token_out)) {
            None => Err(ForgeError::PairNotFound),
            Some(k) => {
                let p = pairs[k];
                let (reserve_in, reserve_out) = oriented(p, token_in);
                if reserve_in <= 0 || reserve_out <= 0 {
                    Err(ForgeError::InsufficientLiquidity)
                } else {
                    match amount_out_result(amount_in, reserve_in, reserve_out) {
                        Err(e) => Err(e),
                        Ok(out) => Ok(
                            (pairs.update(k, after_swap(p, token_in, amount_in, out as int)), out),
                        ),
                    }
                }
            },
        }
    }
}

/// The first `n` hops along `path`, each fed the previous hop's output: the
/// pools afterwards and every amount, starting with `amount_in`.
pub open spec fn hops_result(pairs: Seq<Pair>, path: Seq<u64>, amount_in: i128, n: int) -> Result<
    (Seq<Pair>, Seq<i128>),
    ForgeError,
>
    decreases n,
{
    if n <= 0 {
        Ok((pairs, seq![amount_in]))
    } else {
        match hops_result(pairs, path, amount_in, n - 1) {
            Err(e) => Err(e),
            Ok((before, amounts)) => match hop_result(
                before,
                path[n - 1],
                path[n],
                amounts.last() as int,
            ) {
                Err(e) => Err(e),
                Ok((after, out)) => Ok((after, amounts.push(out))),
            },
        }
    }
}

/// Once a hop fails, the route fails with that hop's error.
proof fn lemma_hops_error_persists(pairs: Seq<Pair>, path: Seq<u64>, amount_in: i128, n: int, m: int)
    requires
        n <= m,
        hops_result(pairs, path, amount_in, n) is Err,
    ensures
        hops_result(pairs, path, amount_in, m) == hops_result(pairs, path, amount_in, n),
    decreases m - n,
{
    if n < m {
        lemma_hops_error_persists(pairs, path, amount_in, n, m - 1);
    }
}

/// Performs one hop on `pairs`, which are left as they were if it fails.
pub fn apply_hop(pairs: &mut Vec<Pair>, token_in: u64, token_out: u64, amount_in: i128) -> (r:
    Result<i128, ForgeError>)
    requires
        all_valid(old(pairs)@),
        amount_in >= 0,
    ensures
        all_valid(final(pairs)@),
        same_ids(old(pairs)@, final(pairs)@),
        match hop_result(old(pairs)@, token_in, token_out, amount_in as int) {
            Ok((after, out)) => r == Ok::<i128, ForgeError>(out) && final(pairs)@ == after,
            Err(e) => r == Err::<i128, ForgeError>(e) && final(pairs)@ == old(pairs)@,
        },
        r matches Ok(out) ==> out >= 0,
{
    if token_in == token_out {
        return Err(ForgeError::InvalidPath);
    }
    let id = canonical_pair_id(token_in, token_out);
    let k = match find_pair(pairs, id) {
        Some(k) => k,
        None => return Err(ForgeError::PairNotFound),
    };
    proof {
        lemma_pair_index_found(old(pairs)@, id, 0);
    }
    let p = pairs[k];
    let forward = token_in == p.token0;
    let (reserve_in, reserve_out) = if forward {
        (p.reserve0, p.reserve1)
    } else {
        (p.reserve1, p.reserve0)
    };
    if reserve_in <= 0 || reserve_out <= 0 {
        return Err(ForgeError::InsufficientLiquidity);
    }
    let amount_out = match get_amount_out(amount_in, reserve_in, reserve_out) {
        Ok(v) => v,
        Err(e) => return Err(e),
    };
    proof {
        if amount_in > 0 {
            lemma_swap_output_bounds(amount_in, reserve_in, reserve_out);
        } else {
            lemma_div_basics(reserve_in as int);
            assert(amount_in == 0);
            assert((amount_in as int) * (reserve_out as int) == 0) by (nonlinear_arith)
                requires
                    amount_in == 0,
            ;
        }
        assert(0 <= amount_out < reserve_out);
    }
    let updated = if forward {
        Pair {
            token0: p.token0,
            token1: p.token1,
            reserve0: reserve_in + amount_in,
            reserve1: reserve_out - amount_out,
            total_supply: p.total_supply,
        }
    } else {
        Pair {
            token0: p.token0,
            token1: p.token1,
            reserve0: reserve_out - amount_out,
            reserve1: reserve_in + amount_in,
            total_supply: p.total_supply,
        }
    };
    pairs.set(k, updated);
    proof {
        assert(updated == after_swap(p, token_in, amount_in as int, amount_out as int));
        assert(old(pairs)@[k as int].valid());
        assert(updated.valid());
        assert(updated.id() == p.id());
        assert forall|i: int| 0 <= i < pairs@.len() implies #[trigger] pairs@[i].valid() by {
            if i != k {
                assert(old(pairs)@[i].valid());
            }
        }
    }
    Ok(amount_out)
}

/// Runs all hops of `path` on a copy of `pairs`, and returns the pools
/// afterwards with every hop's amount.
pub fn route(pairs: &Vec<Pair>, path: &Vec<u64>, amount_in: i128) -> (r: Result<
    (Vec<Pair>, Vec<i128>),
    ForgeError,
>)
    requires
        all_valid(pairs@),
        amount_in >= 0,
        path@.len() >= 2,
    ensures
        match hops_result(pairs@, path@, amount_in, path@.len() - 1) {
            Ok((after, amounts)) => r matches Ok((ps, v)) && ps@ == after && v@ == amounts,
            Err(e) => r matches Err(e2) && e2 == e,
        },
        r matches Ok((ps, _)) ==> all_valid(ps@) && same_ids(pairs@, ps@),
{
    let mut work: Vec<Pair> = Vec::new();
    let mut j: usize = 0;
    while j < pairs.len()
        invariant
            j <= pairs@.len(),
            work@ == pairs@.subrange(0, j as int),
        decreases pairs@.len() - j,
    {
        work.push(pairs[j]);
        j = j + 1;
    }
    assert(work@ == pairs@);
    let mut amounts: Vec<i128> = Vec::new();
    amounts.push(amount_in);
    let mut current: i128 = amount_in;
    let mut i: usize = 1;
    while i < path.len()
        invariant
            1 <= i <= path@.len(),
            all_valid(work@),
            same_ids(pairs@, work@),
            current >= 0,
            hops_result(pairs@, path@, amount_in, i - 1) == Ok::<
                (Seq<Pair>, Seq<i128>),
                ForgeError,
            >((work@, amounts@)),
            amounts@.len() == i,
            amounts@.last() == current,
        decreases path@.len() - i,
    {
        let out = match apply_hop(&mut work, path[i - 1], path[i], current) {
            Ok(v) => v,
            Err(e) => {
                proof {
                    lemma_hops_error_persists(pairs@, path@, amount_in, i as int, path@.len() - 1);
                }
                return Err(e);
            },
        };
        amounts.push(out);
        current = out;
        i = i + 1;
    }
    Ok((work, amounts))
}

} // verus!
