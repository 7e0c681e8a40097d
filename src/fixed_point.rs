//! Checked arithmetic over 128-bit signed amounts.
use vstd::arithmetic::div_mod::lemma_fundamental_div_mod_converse;
use vstd::prelude::*;

use crate::error::ForgeError;

verus! {

/// One whole unit of an asset: amounts carry 18 decimal places.
pub const SCALE: i128 = 1_000_000_000_000_000_000;

/// Whether a mathematical integer can be held in an `i128`.
pub open spec fn fits(x: int) -> bool {
    i128::MIN <= x <= i128::MAX
}

/// The exact value, or `Overflow` when it does not fit.
pub open spec fn exact(x: int) -> Result<i128, ForgeError> {
    if fits(x) {
        Ok(x as i128)
    } else {
        Err(ForgeError::Overflow)
    }
}

/// Division that truncates toward zero, as Rust's `/` on integers does.
pub open spec fn trunc_div(a: int, b: int) -> int {
    let q = (if a < 0 { -a } else { a }) / (if b < 0 { -b } else { b });
    if (a < 0) != (b < 0) {
        -q
    } else {
        q
    }
}

pub open spec fn add_result(a: int, b: int) -> Result<i128, ForgeError> {
    exact(a + b)
}

pub open spec fn sub_result(a: int, b: int) -> Result<i128, ForgeError> {
    exact(a - b)
}

pub open spec fn mul_result(a: int, b: int) -> Result<i128, ForgeError> {
    exact(a * b)
}

pub open spec fn div_result(a: int, b: int) -> Result<i128, ForgeError> {
    if b == 0 {
        Err(ForgeError::DivisionByZero)
    } else {
        exact(trunc_div(a, b))
    }
}

/// `a + b`, or `Overflow`.
pub fn amount_add(a: i128, b: i128) -> (r: Result<i128, ForgeError>)
    ensures
        r == add_result(a as int, b as int),
{
    match a.checked_add(b) {
        Some(v) => Ok(v),
        None => Err(ForgeError::Overflow),
    }
}

/// `a - b`, or `Overflow`.
pub fn amount_sub(a: i128, b: i128) -> (r: Result<i128, ForgeError>)
    ensures
        r == sub_result(a as int, b as int),
{
    match a.checked_sub(b) {
        Some(v) => Ok(v),
        None => Err(ForgeError::Overflow),
    }
}

/// `a * b`, or `Overflow`. The product is checked before it is narrowed.
pub fn amount_mul(a: i128, b: i128) -> (r: Result<i128, ForgeError>)
    ensures
        r == mul_result(a as int, b as int),
{
    match a.checked_mul(b) {
        Some(v) => Ok(v),
        None => Err(ForgeError::Overflow),
    }
}

/// `a / b` truncated toward zero; `DivisionByZero` when `b` is zero, and
/// `Overflow` for the one quotient that does not fit (`i128::MIN / -1`).
pub fn amount_div(a: i128, b: i128) -> (r: Result<i128, ForgeError>)
    ensures
        r == div_result(a as int, b as int),
{
    if b == 0 {
        return Err(ForgeError::DivisionByZero);
    }
    match a.checked_div(b) {
        Some(v) => Ok(v),
        None => Err(ForgeError::Overflow),
    }
}

/// `a * b / d` rounded down, computed exactly although `a * b` may need up to
/// 254 bits: the product is built bit by bit from `b`, with the quotient and
/// the remainder modulo `d` kept separately, so no intermediate exceeds 128 bits.
pub fn mul_div_floor(a: u128, b: u128, d: u128) -> (q: u128)
    requires
        0 < d < 0x8000_0000_0000_0000_0000_0000_0000_0000,
        a <= d,
        b < 0x8000_0000_0000_0000_0000_0000_0000_0000,
    ensures
        q == (a * b) / (d as int),
        q <= b,
{
    // a * b == (acc_q * d + acc_r) + (part_q * d + part_r) * rest,
    // where part_q * d + part_r == a * weight.
    let mut acc_q: u128 = 0;
    let mut acc_r: u128 = 0;
    let mut part_q: u128 = 0;
    let mut part_r: u128 = a;
    if a == d {
        part_q = 1;
        part_r = 0;
    }
    let mut rest: u128 = b;
    let ghost mut weight: int = 1;
    while rest > 0
        invariant
            0 < d < 0x8000_0000_0000_0000_0000_0000_0000_0000,
            a <= d,
            b < 0x8000_0000_0000_0000_0000_0000_0000_0000,
            a * b == (acc_q * d + acc_r) + (part_q * d + part_r) * rest,
            part_q * d + part_r == a * weight,
            acc_r < d,
            part_r < d,
            weight >= 1,
            weight * rest <= b,
            acc_q <= b,
        decreases rest,
    {
        let ghost old_rest = rest as int;
        let ghost p_val = part_q * d + part_r;
        let ghost acc_old = acc_q * d + acc_r;
        if rest % 2 == 1 {
            assert(acc_old + p_val <= a * b) by (nonlinear_arith)
                requires
                    a * b == acc_old + p_val * old_rest,
                    old_rest >= 1,
                    p_val >= 0,
            ;
            assert((acc_q + part_q) * d + (acc_r + part_r) == acc_old + p_val) by (nonlinear_arith)
                requires
                    acc_old == acc_q * d + acc_r,
                    p_val == part_q * d + part_r,
            ;
            assert(acc_q + part_q <= b) by (nonlinear_arith)
                requires
                    (acc_q + part_q) * d + (acc_r + part_r) <= a * b,
                    acc_r + part_r >= 0,
                    a <= d,
                    d > 0,
                    b >= 0,
            ;
            let ghost (q0, r0) = (acc_q + part_q, acc_r + part_r);
            acc_q = acc_q + part_q;
            acc_r = acc_r + part_r;
            if acc_r >= d {
                assert((acc_q + 1) * d + (acc_r - d) == acc_q * d + acc_r) by (nonlinear_arith);
                assert(acc_q + 1 <= b) by (nonlinear_arith)
                    requires
                        (acc_q + 1) * d + (acc_r - d) <= a * b,
                        acc_r - d >= 0,
                        a <= d,
                        d > 0,
                        b >= 0,
                ;
                acc_q = acc_q + 1;
                acc_r = acc_r - d;
            }
            assert(acc_q * d + acc_r == acc_old + p_val) by (nonlinear_arith)
                requires
                    q0 * d + r0 == acc_old + p_val,
                    (acc_q == q0 && acc_r == r0) || (acc_q == q0 + 1 && acc_r == r0 - d),
            ;
            assert(a * b == (acc_q * d + acc_r) + p_val * (old_rest - 1)) by (nonlinear_arith)
                requires
                    a * b == acc_old + p_val * old_rest,
                    acc_q * d + acc_r == acc_old + p_val,
            ;
        }
        rest = rest / 2;
        assert(a * b == (acc_q * d + acc_r) + p_val * (2 * rest));
        assert(weight * (2 * rest) <= b) by (nonlinear_arith)
            requires
                weight * old_rest <= b,
                2 * rest <= old_rest,
                weight >= 1,
        ;
        if rest > 0 {
            assert(part_q <= weight) by (nonlinear_arith)
                requires
                    part_q * d + part_r == a * weight,
                    part_r >= 0,
                    a <= d,
                    d > 0,
                    weight >= 1,
            ;
            assert(2 * weight + 1 <= b + 1) by (nonlinear_arith)
                requires
                    weight * (2 * rest) <= b,
                    rest >= 1,
                    weight >= 1,
            ;
            let ghost (prev_q, prev_r) = (part_q as int, part_r as int);
            part_q = 2 * part_q;
            part_r = 2 * part_r;
            if part_r >= d {
                part_q = part_q + 1;
                part_r = part_r - d;
            }
            assert(part_q * d + part_r == 2 * p_val) by (nonlinear_arith)
                requires
                    p_val == prev_q * d + prev_r,
                    (part_q == 2 * prev_q && part_r == 2 * prev_r) || (part_q == 2 * prev_q + 1
                        && part_r == 2 * prev_r - d),
            ;
            let ghost half = weight;
            proof {
                weight = 2 * weight;
            }
            assert(weight * rest <= b) by (nonlinear_arith)
                requires
                    half * (2 * rest) <= b,
                    weight == 2 * half,
            ;
            assert(a * b == (acc_q * d + acc_r) + (part_q * d + part_r) * rest) by (nonlinear_arith)
                requires
                    a * b == (acc_q * d + acc_r) + p_val * (2 * rest),
                    part_q * d + part_r == 2 * p_val,
            ;
            assert(part_q * d + part_r == a * weight) by (nonlinear_arith)
                requires
                    part_q * d + part_r == 2 * p_val,
                    p_val == a * (weight / 2),
                    weight == 2 * (weight / 2),
            ;
        } else {
            assert(a * b == (acc_q * d + acc_r) + (part_q * d + part_r) * rest) by (nonlinear_arith)
                requires
                    a * b == (acc_q * d + acc_r) + p_val * (2 * rest),
                    rest == 0,
            ;
            assert(weight * rest == 0) by (nonlinear_arith)
                requires
                    rest == 0,
            ;
        }
    }
    proof {
        lemma_fundamental_div_mod_converse(a * b, d as int, acc_q as int, acc_r as int);
    }
    acc_q
}

} // verus!
